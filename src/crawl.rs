//! The crawl's decisions: which repositories to visit after a catalog has been read.
use crate::awesome_links::{github_repo, names_repo, repo_view, AwesomeLink};
use vstd::prelude::*;

verus! {

/// The settings of a crawl, as plain values.
pub struct CrawlArgs {
    /// Where the crawl writes what it fetched and extracted.
    pub output_path: String,
    /// How many new repositories to follow from one catalog; none or zero for no limit.
    pub max_repos: Option<usize>,
    /// The token that authorises requests to the repository host.
    pub github_token: String,
}

/// An owner and repository name, as characters.
pub open spec fn pair_view(p: (String, String)) -> (Seq<char>, Seq<char>) {
    (p.0@, p.1@)
}

/// The pairs, as characters.
pub open spec fn pairs_view(s: Seq<(String, String)>) -> Seq<(Seq<char>, Seq<char>)> {
    s.map_values(|p: (String, String)| pair_view(p))
}

/// Whether some entry of `links` names the repository `p`.
pub open spec fn named_by(links: Seq<AwesomeLink>, p: (String, String)) -> bool {
    exists|x: int| 0 <= x < links.len() && names_repo(links[x], p.0@, p.1@)
}

/// Whether every pair of `r` is named by some entry of `links`.
pub open spec fn pairs_named_by(links: Seq<AwesomeLink>, r: Seq<(String, String)>) -> bool {
    forall|k: int| 0 <= k < r.len() ==> #[trigger] named_by(links, r[k])
}

/// Whether `a` and `b` hold the same characters.
fn same_string(a: &String, b: &String) -> (r: bool)
    ensures
        r == (a@ == b@),
{
    a.eq(b)
}

/// Whether `owner/name` is among `seen`.
fn seen_before(seen: &Vec<(String, String)>, owner: &String, name: &String) -> (r: bool)
    ensures
        r == pairs_view(seen@).contains((owner@, name@)),
{
    let mut i: usize = 0;
    while i < seen.len()
        invariant
            i <= seen@.len(),
            forall|k: int| 0 <= k < i ==> pair_view(#[trigger] seen@[k]) != (owner@, name@),
        decreases seen@.len() - i,
    {
        if same_string(&seen[i].0, owner) && same_string(&seen[i].1, name) {
            proof {
                assert(pairs_view(seen@)[i as int] == (owner@, name@));
            }
            return true;
        }
        i += 1;
    }
    proof {
        if pairs_view(seen@).contains((owner@, name@)) {
            let k = choose|k: int| 0 <= k < pairs_view(seen@).len() && pairs_view(seen@)[k] == (owner@, name@);
            assert(pair_view(seen@[k]) == (owner@, name@));
        }
    }
    false
}

/// The limit on new repositories: none when zero.
pub open spec fn limit_of(max_repos: Option<usize>) -> nat {
    match max_repos {
        Some(m) => m as nat,
        None => 0,
    }
}

/// The repositories followed after the first `n` entries of `links`, when `seen` were visited
/// before: each repository that an entry names, in order, unless seen or already followed, and
/// none once `limit` (when above zero) are followed.
pub open spec fn followed(
    links: Seq<AwesomeLink>,
    seen: Seq<(Seq<char>, Seq<char>)>,
    limit: nat,
    n: int,
) -> Seq<(Seq<char>, Seq<char>)>
    decreases n,
{
    if n <= 0 {
        Seq::empty()
    } else {
        let r = followed(links, seen, limit, n - 1);
        if limit > 0 && r.len() >= limit {
            r
        } else {
            match github_repo(links[n - 1]) {
                Some(p) => if (seen + r).contains(p) {
                    r
                } else {
                    r.push(p)
                },
                None => r,
            }
        }
    }
}

/// Once the limit is reached, later entries add nothing.
proof fn lemma_followed_full(links: Seq<AwesomeLink>, seen: Seq<(Seq<char>, Seq<char>)>, limit: nat, n: int, m: int)
    requires
        0 <= n <= m,
        limit > 0,
        followed(links, seen, limit, n).len() >= limit,
    ensures
        followed(links, seen, limit, m) == followed(links, seen, limit, n),
    decreases m - n,
{
    if n < m {
        lemma_followed_full(links, seen, limit, n, m - 1);
    }
}

impl CrawlArgs {
    /// The repositories to visit after a catalog with entries `links`: the repositories on
    /// github.com that its entries name, in order, leaving out those in `processed`, each once,
    /// and no more than `max_repos` of them when that is above zero. They are added to
    /// `processed`.
    pub fn follow_ups(&self, links: &Vec<AwesomeLink>, processed: &mut Vec<(String, String)>) -> (r: Vec<(String, String)>)
        ensures
            pairs_view(final(processed)@) == pairs_view(old(processed)@) + pairs_view(r@),
            forall|k: int| 0 <= k < r@.len() ==> !pairs_view(old(processed)@).contains(#[trigger] pair_view(r@[k])),
            forall|a: int, b: int| 0 <= a < b < r@.len() ==> pair_view(#[trigger] r@[a]) != pair_view(#[trigger] r@[b]),
            pairs_named_by(links@, r@),
            pairs_view(r@) == followed(links@, pairs_view(old(processed)@), limit_of(self.max_repos), links@.len() as int),
            self.max_repos is Some && self.max_repos->Some_0 > 0 ==> r@.len() <= self.max_repos->Some_0,
    {
        let limit = match self.max_repos {
            Some(m) => m,
            None => 0,
        };
        let ghost before = pairs_view(processed@);
        let mut r: Vec<(String, String)> = Vec::new();
        let ghost mut src: Seq<int> = Seq::empty();
        let mut i: usize = 0;
        while i < links.len() && (limit == 0 || r.len() < limit)
            invariant
                i <= links@.len(),
                limit > 0 ==> r@.len() <= limit,
                limit == match self.max_repos {
                    Some(m) => m,
                    None => 0,
                },
                pairs_view(processed@) == before + pairs_view(r@),
                forall|k: int| 0 <= k < r@.len() ==> !before.contains(#[trigger] pair_view(r@[k])),
                forall|a: int, b: int| 0 <= a < b < r@.len() ==> pair_view(#[trigger] r@[a]) != pair_view(#[trigger] r@[b]),
                src.len() == r@.len(),
                forall|k: int| 0 <= k < r@.len() ==> 0 <= #[trigger] src[k] < links@.len() && names_repo(links@[src[k]], r@[k].0@, r@[k].1@),
                limit as nat == limit_of(self.max_repos),
                pairs_view(r@) == followed(links@, before, limit as nat, i as int),
            decreases links@.len() - i,
        {
            let ghost r_before = pairs_view(r@);
            let found = links[i].as_github_repo();
            let ghost fv = repo_view(found);
            if let Some((owner, name)) = found {
                let fresh = !seen_before(processed, &owner, &name);
                proof {
                    assert(fv == Some((owner@, name@)));
                }
                if fresh {
                    let ghost old_r = r@;
                    proof {
                        assert forall|k: int| 0 <= k < old_r.len() implies pair_view(old_r[k]) != (owner@, name@) by {
                            assert(pairs_view(processed@)[before.len() + k] == pair_view(old_r[k]));
                        }
                        assert forall|k: int| 0 <= k < before.len() implies before[k] != (owner@, name@) by {
                            assert(pairs_view(processed@)[k] == before[k]);
                        }
                    }
                    let ghost old_p = processed@;
                    let pair = (owner.clone(), name.clone());
                    processed.push(pair);
                    r.push((owner, name));
                    proof {
                        assert(pairs_view(processed@) =~= pairs_view(old_p).push((owner@, name@)));
                        assert(pairs_view(r@) =~= pairs_view(old_r).push((owner@, name@)));
                        assert(pairs_view(processed@) =~= before + pairs_view(r@));
                        assert(!before.contains((owner@, name@)));
                        let old_src = src;
                        src = src.push(i as int);
                        assert forall|k: int| 0 <= k < r@.len() implies 0 <= #[trigger] src[k] < links@.len() && names_repo(links@[src[k]], r@[k].0@, r@[k].1@) by {
                            if k < old_r.len() {
                                assert(r@[k] == old_r[k] && src[k] == old_src[k]);
                            }
                        }
                    }
                }
            }
            proof {
                assert(fv == github_repo(links@[i as int]));
                assert(pairs_view(r@) == followed(links@, before, limit as nat, i + 1));
            }
            i += 1;
        }
        proof {
            if i < links@.len() {
                lemma_followed_full(links@, before, limit as nat, i as int, links@.len() as int);
            }
            assert forall|k: int| 0 <= k < r@.len() implies #[trigger] named_by(links@, r@[k]) by {
                assert(0 <= src[k] < links@.len() && names_repo(links@[src[k]], r@[k].0@, r@[k].1@));
            }
            assert(pairs_named_by(links@, r@));
        }
        r
    }
}

} // verus!
