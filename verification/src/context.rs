use crate::link::{parsed_line, seg_view, link_base_name, parse_line, Link};
use crate::lines::{split_lines, views_of, split_into_lines};
use crate::name::{allocated_name, u64_to_dec};
use vstd::prelude::*;
use vstd::string::StringExecFns;

verus! {

/// The `(url, last segment)` pairs of the lines that parse, in input order.
pub open spec fn links_of_lines(lines: Seq<Seq<char>>) -> Seq<(Seq<char>, Option<Seq<char>>)>
    decreases lines.len(),
{
    if lines.len() == 0 {
        Seq::empty()
    } else {
        match parsed_line(lines[0]) {
            Some(p) => seq![p] + links_of_lines(lines.skip(1)),
            None => links_of_lines(lines.skip(1)),
        }
    }
}

/// The lines that do not parse, in input order.
pub open spec fn rejected_lines(lines: Seq<Seq<char>>) -> Seq<Seq<char>>
    decreases lines.len(),
{
    if lines.len() == 0 {
        Seq::empty()
    } else if parsed_line(lines[0]) is None {
        seq![lines[0]] + rejected_lines(lines.skip(1))
    } else {
        rejected_lines(lines.skip(1))
    }
}

/// The `(url, last segment)` views of a sequence of links.
pub open spec fn link_views(links: Seq<Link>) -> Seq<(Seq<char>, Option<Seq<char>>)> {
    links.map_values(|l: Link| (l.url@, seg_view(l.last_segment)))
}

/// Law: when no input line parses, no link is queued at all — the pool
/// then finishes with zero downloads, every claim coming back empty.
pub proof fn lemma_all_invalid_no_links(lines: Seq<Seq<char>>)
    requires
        forall|i: int| 0 <= i < lines.len() ==> parsed_line(lines[i]) is None,
    ensures
        links_of_lines(lines).len() == 0,
    decreases lines.len(),
{
    if lines.len() > 0 {
        assert forall|i: int| 0 <= i < lines.skip(1).len() implies parsed_line(
            lines.skip(1)[i],
        ) is None by {
            assert(lines.skip(1)[i] == lines[i + 1]);
        }
        lemma_all_invalid_no_links(lines.skip(1));
    }
}

/// The count recorded for `base` in the allocation table, zero when absent.
pub open spec fn count_in(pairs: Seq<(String, u64)>, base: Seq<char>) -> nat
    decreases pairs.len(),
{
    if pairs.len() == 0 {
        0
    } else if pairs[0].0@ == base {
        pairs[0].1 as nat
    } else {
        count_in(pairs.skip(1), base)
    }
}

proof fn lemma_count_in_update(pairs: Seq<(String, u64)>, i: int, v: (String, u64), b: Seq<char>)
    requires
        0 <= i < pairs.len(),
        forall|j: int| 0 <= j < i ==> pairs[j].0@ != pairs[i].0@,
        v.0@ == pairs[i].0@,
    ensures
        count_in(pairs.update(i, v), b) == if b == pairs[i].0@ {
            v.1 as nat
        } else {
            count_in(pairs, b)
        },
    decreases pairs.len(),
{
    if i == 0 {
        assert(pairs.update(0, v)[0] == v);
        assert(pairs.update(0, v).skip(1) =~= pairs.skip(1));
    } else {
        assert(pairs.update(i, v)[0] == pairs[0]);
        assert(pairs.update(i, v).skip(1) =~= pairs.skip(1).update(i - 1, v));
        assert forall|j: int| 0 <= j < i - 1 implies #[trigger] pairs.skip(1)[j].0@ != pairs.skip(
            1,
        )[i - 1].0@ by {
            assert(pairs.skip(1)[j] == pairs[j + 1]);
            assert(pairs.skip(1)[i - 1] == pairs[i]);
        }
        lemma_count_in_update(pairs.skip(1), i - 1, v, b);
    }
}

proof fn lemma_count_in_push(pairs: Seq<(String, u64)>, v: (String, u64), b: Seq<char>)
    requires
        forall|j: int| 0 <= j < pairs.len() ==> pairs[j].0@ != v.0@,
    ensures
        count_in(pairs.push(v), b) == if b == v.0@ {
            v.1 as nat
        } else {
            count_in(pairs, b)
        },
    decreases pairs.len(),
{
    if pairs.len() == 0 {
        assert(pairs.push(v)[0] == v);
        assert(pairs.push(v).skip(1) =~= Seq::<(String, u64)>::empty());
        assert(count_in(Seq::<(String, u64)>::empty(), b) == 0);
    } else {
        assert(pairs.push(v)[0] == pairs[0]);
        assert(pairs.push(v).skip(1) =~= pairs.skip(1).push(v));
        assert forall|j: int| 0 <= j < pairs.skip(1).len() implies pairs.skip(1)[j].0@
            != v.0@ by {
            assert(pairs.skip(1)[j] == pairs[j + 1]);
        }
        lemma_count_in_push(pairs.skip(1), v, b);
    }
}

/// The shared dispatch state: the queue of links still to hand out, and
/// the table of how many allocations each base file name has had. One
/// exclusive-access boundary around a value of this type — held only for
/// the claim itself, never across network or disk work — is all the
/// coordination the worker pool needs.
pub struct LinkStore {
    links: Vec<Link>,
    file_name_count_map: Vec<(String, u64)>,
}

impl LinkStore {
    /// The links not yet claimed, in input order; claims pop from the end.
    pub closed spec fn queue(&self) -> Seq<Link> {
        self.links@
    }

    /// How many allocations base name `base` has already had.
    pub closed spec fn prior(&self, base: Seq<char>) -> nat {
        count_in(self.file_name_count_map@, base)
    }

    /// Builds the store from raw input text, one URL per line: the lines
    /// that parse become the queue, in input order, and the lines that do
    /// not come back for the caller to report. A bad line is skipped, not
    /// fatal.
    pub fn new(text: &str) -> (r: (LinkStore, Vec<String>))
        ensures
            link_views(r.0.queue()) == links_of_lines(split_lines(text@)),
            forall|b: Seq<char>| r.0.prior(b) == 0,
            views_of(r.1@) == rejected_lines(split_lines(text@)),
    {
        let lines = split_into_lines(text);
        let ghost l = split_lines(text@);
        let mut links: Vec<Link> = Vec::new();
        let mut rejected: Vec<String> = Vec::new();
        let mut k: usize = 0;
        proof {
            assert(l.skip(0) =~= l);
            assert(link_views(links@) =~= Seq::<(Seq<char>, Option<Seq<char>>)>::empty());
            assert(views_of(rejected@) =~= Seq::<Seq<char>>::empty());
            assert(link_views(links@) + links_of_lines(l) =~= links_of_lines(l));
            assert(views_of(rejected@) + rejected_lines(l) =~= rejected_lines(l));
        }
        while k < lines.len()
            invariant
                views_of(lines@) == l,
                k <= lines.len(),
                lines@.len() == l.len(),
                link_views(links@) + links_of_lines(l.skip(k as int)) == links_of_lines(l),
                views_of(rejected@) + rejected_lines(l.skip(k as int)) == rejected_lines(l),
            decreases lines.len() - k,
        {
            let ghost old_links = links@;
            let ghost old_rejected = rejected@;
            proof {
                assert(lines@[k as int]@ == l[k as int]);
                assert(l.skip(k as int)[0] == l[k as int]);
                assert(l.skip(k as int).skip(1) =~= l.skip(k as int + 1));
            }
            match parse_line(lines[k].as_str()) {
                Some(link) => {
                    links.push(link);
                    proof {
                        assert(link_views(links@) =~= link_views(old_links) + seq![
                            (link.url@, seg_view(link.last_segment)),
                        ]);
                        assert(link_views(links@) + links_of_lines(l.skip(k as int + 1))
                            =~= links_of_lines(l));
                    }
                },
                None => {
                    rejected.push(lines[k].clone());
                    proof {
                        assert(views_of(rejected@) =~= views_of(old_rejected) + seq![
                            l[k as int],
                        ]);
                        assert(views_of(rejected@) + rejected_lines(l.skip(k as int + 1))
                            =~= rejected_lines(l));
                    }
                },
            }
            k += 1;
        }
        proof {
            assert(l.skip(l.len() as int) =~= Seq::<Seq<char>>::empty());
            assert(link_views(links@) =~= links_of_lines(l));
            assert(views_of(rejected@) =~= rejected_lines(l));
        }
        (LinkStore { links, file_name_count_map: Vec::new() }, rejected)
    }

    /// Records one allocation of `base` and hands back the resolved name:
    /// the base itself the first time, `<base>.<n>` on the n-th repeat.
    fn allocate(&mut self, base: String) -> (r: String)
        requires
            old(self).prior(base@) < u64::MAX,
        ensures
            r@ == allocated_name(base@, old(self).prior(base@)),
            forall|b: Seq<char>|
                final(self).prior(b) == (if b == base@ {
                    old(self).prior(b) + 1
                } else {
                    old(self).prior(b)
                }),
            final(self).queue() == old(self).queue(),
    {
        let ghost pairs0 = self.file_name_count_map@;
        let n = self.file_name_count_map.len();
        let mut i: usize = 0;
        let mut occurrence: u64 = 0;
        let mut found: bool = false;
        proof {
            assert(pairs0.skip(0) =~= pairs0);
        }
        while i < n && !found
            invariant
                i <= n,
                n == self.file_name_count_map@.len(),
                self.file_name_count_map@ == pairs0,
                !found ==> {
                    &&& count_in(pairs0, base@) == count_in(pairs0.skip(i as int), base@)
                    &&& forall|j: int| 0 <= j < i ==> pairs0[j].0@ != base@
                    &&& occurrence == 0
                },
                found ==> {
                    &&& 0 < i <= n
                    &&& pairs0[i as int - 1].0@ == base@
                    &&& forall|j: int| 0 <= j < i - 1 ==> pairs0[j].0@ != base@
                    &&& occurrence == count_in(pairs0, base@)
                },
            decreases n - i + (if found { 0int } else { 1int }),
        {
            proof {
                assert(pairs0.skip(i as int)[0] == pairs0[i as int]);
                assert(pairs0.skip(i as int).skip(1) =~= pairs0.skip(i as int + 1));
            }
            if self.file_name_count_map[i].0 == base {
                occurrence = self.file_name_count_map[i].1;
                found = true;
            }
            i += 1;
        }
        proof {
            if !found {
                assert(pairs0.skip(n as int) =~= Seq::<(String, u64)>::empty());
                assert(count_in(pairs0, base@) == 0);
            }
        }
        if found {
            let idx = i - 1;
            let key = self.file_name_count_map.remove(idx);
            self.file_name_count_map.insert(idx, (key.0, occurrence + 1));
            proof {
                assert(self.file_name_count_map@ =~= pairs0.update(
                    idx as int,
                    (key.0, (occurrence + 1) as u64),
                ));
                assert forall|b: Seq<char>|
                    self.prior(b) == (if b == base@ {
                        count_in(pairs0, b) + 1
                    } else {
                        count_in(pairs0, b)
                    }) by {
                    lemma_count_in_update(
                        pairs0,
                        idx as int,
                        (key.0, (occurrence + 1) as u64),
                        b,
                    );
                }
            }
        } else {
            self.file_name_count_map.push((base.clone(), 1));
            proof {
                assert forall|b: Seq<char>|
                    self.prior(b) == (if b == base@ {
                        count_in(pairs0, b) + 1
                    } else {
                        count_in(pairs0, b)
                    }) by {
                    lemma_count_in_push(pairs0, (base, 1u64), b);
                }
            }
        }
        if occurrence == 0 {
            base
        } else {
            let mut r = base;
            r.append(".");
            let digits = u64_to_dec(occurrence);
            r.append(digits.as_str());
            r
        }
    }

    /// Resolves the output file name for `link`, recording the allocation:
    /// deterministic, never idempotent — the same base name next time gets
    /// the next suffix.
    pub fn choose_name(&mut self, link: &Link) -> (r: String)
        requires
            old(self).prior(link_base_name(*link)) < u64::MAX,
        ensures
            r@ == allocated_name(link_base_name(*link), old(self).prior(link_base_name(*link))),
            forall|b: Seq<char>|
                final(self).prior(b) == (if b == link_base_name(*link) {
                    old(self).prior(b) + 1
                } else {
                    old(self).prior(b)
                }),
            final(self).queue() == old(self).queue(),
    {
        let base = link.base_name();
        self.allocate(base)
    }

    /// The one atomic claim: pops the most recently listed unclaimed link
    /// (the queue hands links out tail-first) and resolves its file name.
    /// Comes back empty exactly when the queue is exhausted, and a claimed
    /// link leaves the queue for good, so no two claims get the same link.
    pub fn claim_next(&mut self) -> (r: Option<(String, Link)>)
        requires
            old(self).queue().len() > 0 ==> old(self).prior(
                link_base_name(old(self).queue().last()),
            ) < u64::MAX,
        ensures
            old(self).queue().len() == 0 ==> {
                &&& r is None
                &&& final(self).queue() == old(self).queue()
                &&& forall|b: Seq<char>| final(self).prior(b) == old(self).prior(b)
            },
            old(self).queue().len() > 0 ==> {
                &&& r matches Some(p)
                &&& p.1 == old(self).queue().last()
                &&& p.0@ == allocated_name(
                    link_base_name(old(self).queue().last()),
                    old(self).prior(link_base_name(old(self).queue().last())),
                )
                &&& final(self).queue() == old(self).queue().drop_last()
                &&& forall|b: Seq<char>|
                    final(self).prior(b) == (if b == link_base_name(old(self).queue().last()) {
                        old(self).prior(b) + 1
                    } else {
                        old(self).prior(b)
                    })
            },
    {
        let popped = self.links.pop();
        match popped {
            None => None,
            Some(link) => {
                let name = self.choose_name(&link);
                Some((name, link))
            },
        }
    }
}

impl Default for LinkStore {
    /// An empty store: nothing queued, no name handed out yet.
    fn default() -> (r: Self)
        ensures
            r.queue().len() == 0,
            forall|b: Seq<char>| r.prior(b) == 0,
    {
        LinkStore { links: Vec::new(), file_name_count_map: Vec::new() }
    }
}

/// The queue left after `k` claims.
pub open spec fn queue_after(q: Seq<Link>, k: nat) -> Seq<Link>
    decreases k,
{
    if k == 0 {
        q
    } else {
        let q1 = queue_after(q, (k - 1) as nat);
        if q1.len() == 0 {
            q1
        } else {
            q1.drop_last()
        }
    }
}

/// The links the first `k` claims hand out, in claim order.
pub open spec fn claimed_after(q: Seq<Link>, k: nat) -> Seq<Link>
    decreases k,
{
    if k == 0 {
        Seq::empty()
    } else {
        let q1 = queue_after(q, (k - 1) as nat);
        if q1.len() == 0 {
            claimed_after(q, (k - 1) as nat)
        } else {
            claimed_after(q, (k - 1) as nat).push(q1.last())
        }
    }
}

/// Law: exactly-once dispatch. `claim_next` steps the queue exactly as
/// `queue_after` and `claimed_after` say, so out of `k` claims on a queue
/// of `M` links exactly `min(k, M)` succeed; together they hand out the
/// queue's tail in reverse input order — no link twice, none dropped —
/// and every claim after exhaustion comes back empty.
pub proof fn lemma_dispatch_exact(q: Seq<Link>, k: nat)
    ensures
        k <= q.len() ==> queue_after(q, k) == q.take(q.len() - k),
        k >= q.len() ==> queue_after(q, k).len() == 0,
        claimed_after(q, k) == q.skip(
            if k <= q.len() {
                q.len() - k
            } else {
                0
            },
        ).reverse(),
    decreases k,
{
    if k == 0 {
        assert(q.take(q.len() as int) =~= q);
        assert(claimed_after(q, 0) =~= q.skip(q.len() as int).reverse());
    } else {
        lemma_dispatch_exact(q, (k - 1) as nat);
        let q1 = queue_after(q, (k - 1) as nat);
        if (k - 1) as nat >= q.len() {
            assert(claimed_after(q, k) =~= q.skip(0).reverse());
            assert(queue_after(q, k).len() == 0);
        } else {
            let m = q.len() - (k - 1);
            assert(q1 == q.take(m as int));
            if q1.len() == 0 {
                assert(q.len() == (k - 1) as nat);
                assert(claimed_after(q, k) =~= q.skip(0).reverse());
            } else {
                assert(q1.last() == q[m - 1]);
                assert(q1.drop_last() =~= q.take(m - 1));
                if k <= q.len() {
                    assert(queue_after(q, k) =~= q.take(q.len() - k as int));
                }
                assert(claimed_after(q, k) =~= q.skip(
                    if k <= q.len() {
                        q.len() - k as int
                    } else {
                        0
                    },
                ).reverse()) by {
                    let s1 = q.skip(m as int).reverse();
                    assert(claimed_after(q, (k - 1) as nat) == s1);
                    let s2 = q.skip(m - 1).reverse();
                    assert(s2.len() == k);
                    assert forall|x: int| 0 <= x < s2.len() implies s2[x]
                        == claimed_after(q, k)[x] by {
                        assert(s2[x] == q[q.len() - 1 - x]);
                        if x < k - 1 {
                            assert(s1[x] == q[q.len() - 1 - x]);
                        }
                    }
                }
            }
        }
    }
}

} // verus!
