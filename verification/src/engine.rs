use vstd::prelude::*;
use vstd::seq_lib::{lemma_seq_concat_contains_all_elements, lemma_seq_contains_after_push};
use std::collections::VecDeque;
use crate::page::WebPageInfo;
use crate::urls::{parse_url, url_of};

verus! {

/// The mathematical state of a crawl: the frontier of discovered, not yet
/// processed URLs in FIFO order, and the set of URLs already dequeued for
/// processing. URLs appear in their normalized form, so the two structures
/// agree on URL identity.
#[verifier::ext_equal]
pub struct EngineState {
    pub frontier: Seq<Seq<char>>,
    pub visited: Set<Seq<char>>,
}

/// The character sequences of a sequence of strings.
spec fn views_of(s: Seq<String>) -> Seq<Seq<char>> {
    s.map_values(|u: String| u@)
}

proof fn lemma_views_of_push(pre: Seq<String>, x: String)
    ensures
        views_of(pre.push(x)) =~= views_of(pre).push(x@),
{
}

proof fn lemma_views_of_tail(pre: Seq<String>)
    requires
        pre.len() > 0,
    ensures
        views_of(pre.subrange(1, pre.len() as int)) =~= views_of(pre).skip(1),
{
}

/// The crawl engine: it owns the frontier and the visited set exclusively and
/// persists them across successive result-production calls. Seeded with one
/// URL; a seed that does not parse leaves the frontier empty, so the crawl
/// ends at once with no error.
pub struct CrawlEngine {
    frontier: VecDeque<String>,
    visited: Vec<String>,
}

impl View for CrawlEngine {
    type V = EngineState;

    closed spec fn view(&self) -> EngineState {
        EngineState {
            frontier: views_of(self.frontier@),
            visited: self.visited.deep_view().to_set(),
        }
    }
}

/// Whether a crawl state holds `u` anywhere: still queued, or already
/// processed.
pub open spec fn holds_url(st: EngineState, u: Seq<char>) -> bool {
    st.frontier.contains(u) || st.visited.contains(u)
}

/// One dequeue transition: some frontier entry `u`, in front of which every
/// entry was already visited, is the first unvisited entry; it leaves the
/// frontier together with the already-visited entries before it, and enters
/// the visited set. Entries already visited are dropped without any fetch, so
/// a URL is processed at most once even when the frontier transiently holds
/// it twice.
pub open spec fn dequeues(pre: EngineState, post: EngineState, u: Seq<char>) -> bool {
    exists|k: int|
        #![auto]
        0 <= k < pre.frontier.len() && pre.frontier[k] == u && (forall|i: int|
            0 <= i < k ==> pre.visited.contains(#[trigger] pre.frontier[i]))
            && !pre.visited.contains(u) && post.frontier == pre.frontier.skip(k + 1)
            && post.visited == pre.visited.insert(u)
}

/// The links of a page that are new at enqueue time: those not yet in the
/// visited set, in page order. Entries merely queued but not yet visited are
/// not checked against, so duplicate frontier entries can arise; the dequeue
/// transition makes them harmless.
pub open spec fn new_links(links: Seq<Seq<char>>, visited: Set<Seq<char>>) -> Seq<Seq<char>> {
    links.filter_map(
        |l: Seq<char>|
            if visited.contains(l) {
                None
            } else {
                Some(l)
            },
    )
}

/// One enqueue transition: the not-yet-visited links of a processed page are
/// appended to the back of the frontier, in page order; the visited set does
/// not change.
pub open spec fn enqueues(pre: EngineState, post: EngineState, links: Seq<Seq<char>>) -> bool {
    post.visited == pre.visited && post.frontier == pre.frontier + new_links(links, pre.visited)
}

/// A selection keeps at most as many links as it was offered.
pub proof fn lemma_new_links_len(links: Seq<Seq<char>>, visited: Set<Seq<char>>)
    ensures
        new_links(links, visited).len() <= links.len(),
    decreases links.len(),
{
    if links.len() > 0 {
        lemma_new_links_len(links.drop_last(), visited);
    }
}

/// What the selection keeps: exactly the offered links that were not yet
/// visited — none is invented, none not yet visited is dropped.
pub proof fn lemma_new_links_mem(links: Seq<Seq<char>>, visited: Set<Seq<char>>)
    ensures
        forall|l: Seq<char>| #[trigger]
            new_links(links, visited).contains(l) ==> links.contains(l) && !visited.contains(l),
        forall|i: int|
            0 <= i < links.len() && !visited.contains(#[trigger] links[i]) ==> new_links(
                links,
                visited,
            ).contains(links[i]),
{
    let f = |l: Seq<char>|
        if visited.contains(l) {
            None
        } else {
            Some(l)
        };
    assert forall|l: Seq<char>| #[trigger]
        new_links(links, visited).contains(l) implies links.contains(l)
        && !visited.contains(l) by {
        links.lemma_filter_map_contains(f, l);
        let t = choose|t: Seq<char>| #[trigger] links.contains(t) && f(t) == Some(l);
        assert(t == l);
    }
    assert forall|i: int|
        0 <= i < links.len() && !visited.contains(#[trigger] links[i]) implies new_links(
        links,
        visited,
    ).contains(links[i]) by {
        lemma_new_links_included(links, visited, i);
    }
}

/// An offered link not yet visited is among the kept ones.
proof fn lemma_new_links_included(links: Seq<Seq<char>>, visited: Set<Seq<char>>, i: int)
    requires
        0 <= i < links.len(),
        !visited.contains(links[i]),
    ensures
        new_links(links, visited).contains(links[i]),
    decreases links.len(),
{
    let f = |l: Seq<char>|
        if visited.contains(l) {
            None
        } else {
            Some(l)
        };
    let rest = links.drop_last();
    let tail = match f(links.last()) {
        Some(l) => seq![l],
        None => Seq::<Seq<char>>::empty(),
    };
    assert(new_links(links, visited) == rest.filter_map(f) + tail);
    if i == links.len() - 1 {
        assert(tail[0] == links[i]);
        assert(tail.contains(links[i]));
    } else {
        assert(rest[i] == links[i]);
        lemma_new_links_included(rest, visited, i);
    }
    lemma_seq_concat_contains_all_elements(rest.filter_map(f), tail, links[i]);
}

impl CrawlEngine {
    /// Starts a crawl from one seed value. A seed that parses as a URL is the
    /// sole initial frontier entry, in its normalized form; one that does not
    /// parse leaves the frontier empty. Nothing is visited yet.
    pub fn new(seed: &str) -> (engine: Self)
        ensures
            engine@.visited == Set::<Seq<char>>::empty(),
            engine@.frontier == match url_of(seed@) {
                Some(u) => seq![u],
                None => Seq::<Seq<char>>::empty(),
            },
    {
        let mut frontier: VecDeque<String> = VecDeque::new();
        match parse_url(seed) {
            Some(u) => {
                frontier.push_back(u);
            },
            None => {},
        }
        let engine = CrawlEngine { frontier, visited: Vec::new() };
        proof {
            assert(engine@.visited =~= Set::<Seq<char>>::empty());
            match url_of(seed@) {
                Some(u) => {
                    assert(engine@.frontier =~= seq![u]);
                },
                None => {
                    assert(engine@.frontier =~= Seq::<Seq<char>>::empty());
                },
            }
        }
        engine
    }

    /// Whether `u` was already dequeued for processing.
    fn is_visited(&self, u: &String) -> (b: bool)
        ensures
            b == self@.visited.contains(u@),
    {
        let mut i: usize = 0;
        while i < self.visited.len()
            invariant
                i <= self.visited@.len(),
                forall|j: int| 0 <= j < i ==> self.visited.deep_view()[j] != u@,
            decreases self.visited@.len() - i,
        {
            if self.visited[i] == *u {
                proof {
                    assert(self.visited.deep_view()[i as int] == self.visited@[i as int]@);
                    assert(self.visited.deep_view().contains(u@));
                }
                return true;
            }
            proof {
                assert(self.visited.deep_view()[i as int] == self.visited@[i as int]@);
            }
            i += 1;
        }
        proof {
            assert(!self.visited.deep_view().contains(u@));
        }
        false
    }

    /// Takes the next URL to process: the first frontier entry that was not
    /// visited yet, marked visited at this moment, with every already-visited
    /// entry before it dropped. Returns `None` exactly when no unvisited
    /// entry remains, after which the frontier is empty and the state never
    /// changes again — exhaustion is idempotent.
    pub fn begin_visit(&mut self) -> (r: Option<String>)
        ensures
            r matches Some(u) ==> dequeues(old(self)@, final(self)@, u@),
            r is None ==> final(self)@.visited == old(self)@.visited && final(self)@.frontier
                == Seq::<Seq<char>>::empty() && (forall|i: int|
                0 <= i < old(self)@.frontier.len() ==> old(self)@.visited.contains(
                    #[trigger] old(self)@.frontier[i],
                )),
            old(self)@.frontier.len() == 0 ==> r is None && final(self)@ == old(self)@,
            old(self)@.visited.subset_of(final(self)@.visited),
            r is Some ==> final(self)@.frontier.len() < old(self)@.frontier.len(),
            r is None ==> final(self)@.frontier.len() == 0,
    {
        let ghost orig = self@;
        let ghost mut k: int = 0;
        loop
            invariant
                orig == old(self)@,
                0 <= k <= orig.frontier.len(),
                self@.visited == orig.visited,
                self@.frontier == orig.frontier.skip(k),
                forall|i: int| 0 <= i < k ==> orig.visited.contains(#[trigger] orig.frontier[i]),
            decreases orig.frontier.len() - k,
        {
            let ghost pre_front = self.frontier@;
            let popped = self.frontier.pop_front();
            match popped {
                None => {
                    proof {
                        assert(self@.frontier =~= Seq::<Seq<char>>::empty());
                        if orig.frontier.len() == 0 {
                            assert(orig.frontier =~= Seq::<Seq<char>>::empty());
                            assert(self@ =~= orig);
                        }
                    }
                    return None;
                },
                Some(u) => {
                    proof {
                        assert(views_of(pre_front) == orig.frontier.skip(k));
                        assert(views_of(pre_front).len() == pre_front.len());
                        assert(k < orig.frontier.len());
                        lemma_views_of_tail(pre_front);
                        assert(self@.frontier =~= orig.frontier.skip(k).skip(1));
                        assert(orig.frontier.skip(k).skip(1) =~= orig.frontier.skip(k + 1));
                        assert(u@ == views_of(pre_front)[0]);
                        assert(u@ == orig.frontier[k]);
                    }
                    if !self.is_visited(&u) {
                        let ghost pre_visited = self.visited.deep_view();
                        self.visited.push(u.clone());
                        proof {
                            assert(self.visited@ == self.visited@.subrange(
                                0,
                                pre_visited.len() as int,
                            ).push(self.visited@[pre_visited.len() as int]));
                            assert(self.visited.deep_view() =~= pre_visited.push(u@));
                            lemma_seq_contains_after_push(pre_visited, u@, u@);
                            assert forall|x: Seq<char>| #[trigger]
                                self@.visited.contains(x)
                                    <==> orig.visited.insert(u@).contains(x) by {
                                lemma_seq_contains_after_push(pre_visited, u@, x);
                            }
                            assert(self@.visited =~= orig.visited.insert(u@));
                            assert(dequeues(orig, self@, u@));
                        }
                        return Some(u);
                    }
                    proof {
                        assert(orig.visited.contains(orig.frontier[k]));
                        k = k + 1;
                    }
                },
            }
        }
    }

    /// Appends the not-yet-visited links of a processed page to the back of
    /// the frontier, in page order, completing that page's visit.
    pub fn enqueue_links(&mut self, page: &WebPageInfo)
        ensures
            enqueues(old(self)@, final(self)@, page.links.deep_view()),
            final(self)@.frontier.len() <= old(self)@.frontier.len()
                + page.links.deep_view().len(),
    {
        let ghost orig = self@;
        let ghost all = page.links.deep_view();
        let ghost f = |l: Seq<char>|
            if orig.visited.contains(l) {
                None
            } else {
                Some(l)
            };
        let mut i: usize = 0;
        while i < page.links.len()
            invariant
                orig == old(self)@,
                all == page.links.deep_view(),
                all.len() == page.links@.len(),
                i <= page.links@.len(),
                self@.visited == orig.visited,
                self@.frontier == orig.frontier + all.take(i as int).filter_map(f),
                (f == |l: Seq<char>|
                    if orig.visited.contains(l) {
                        None
                    } else {
                        Some(l)
                    }),
            decreases page.links@.len() - i,
        {
            proof {
                all.lemma_filter_map_take_succ(f, i as int);
                assert(all[i as int] == page.links@[i as int]@);
            }
            let ghost pre = self@.frontier;
            let ghost pre_front = self.frontier@;
            let link = &page.links[i];
            if !self.is_visited(link) {
                self.frontier.push_back(link.clone());
                proof {
                    lemma_views_of_push(pre_front, self.frontier@.last());
                    assert(self.frontier@ =~= pre_front.push(self.frontier@.last()));
                    assert(self@.frontier =~= pre.push(link@));
                    assert(pre.push(link@) =~= pre + seq![link@]);
                    assert(self@.frontier =~= orig.frontier + all.take(i + 1).filter_map(f));
                }
            } else {
                proof {
                    assert(all.take(i + 1).filter_map(f) =~= all.take(i as int).filter_map(f));
                    assert(self@.frontier =~= orig.frontier + all.take(i + 1).filter_map(f));
                }
            }
            i += 1;
        }
        proof {
            assert(all.take(all.len() as int) =~= all);
            lemma_new_links_len(all, orig.visited);
        }
    }
}

/// No duplicate processing: whatever other transitions stand between them —
/// the visited set only ever grows — two dequeues can never take the same
/// URL, because the first puts it into the visited set and the second demands
/// it absent.
pub proof fn lemma_no_duplicate_processing(
    s0: EngineState,
    s1: EngineState,
    s2: EngineState,
    s3: EngineState,
    u1: Seq<char>,
    u2: Seq<char>,
)
    requires
        dequeues(s0, s1, u1),
        s1.visited.subset_of(s2.visited),
        dequeues(s2, s3, u2),
    ensures
        u1 != u2,
{
    assert(s1.visited.contains(u1));
    assert(s2.visited.contains(u1));
    assert(!s2.visited.contains(u2));
}

/// The visited set never shrinks: every transition of the engine — a dequeue,
/// an enqueue, or an exhausted probe that changes nothing — keeps every
/// visited URL visited.
pub proof fn lemma_visited_monotone(
    pre: EngineState,
    post: EngineState,
    u: Seq<char>,
    links: Seq<Seq<char>>,
)
    ensures
        dequeues(pre, post, u) ==> pre.visited.subset_of(post.visited),
        enqueues(pre, post, links) ==> pre.visited.subset_of(post.visited),
{
}

} // verus!
