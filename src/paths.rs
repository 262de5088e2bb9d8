//! Which (source network, destination network) paths connect two machines,
//! best first.
use vstd::prelude::*;
use crate::links::{NamePair, NetworkLinksPriorityMap};
use crate::models::MachineAddress;

verus! {

broadcast use Seq::lemma_filter_push;

/// The names held by a list of strings.
pub open spec fn names(v: Seq<String>) -> Seq<Seq<char>> {
    v.map_values(|s: String| s@)
}

/// A list of string pairs as pairs of names.
pub open spec fn pairs_view(v: Seq<(String, String)>) -> Seq<NamePair> {
    v.map_values(|p: (String, String)| (p.0@, p.1@))
}

/// The networks that `addrs` lie on, each once, in order of first appearance.
pub open spec fn distinct_networks(addrs: Seq<MachineAddress>) -> Seq<Seq<char>>
    decreases addrs.len(),
{
    if addrs.len() == 0 {
        Seq::empty()
    } else {
        let p = distinct_networks(addrs.drop_last());
        if p.contains(addrs.last().network@) {
            p
        } else {
            p.push(addrs.last().network@)
        }
    }
}

/// The pairs of `s` with the destinations of `dst`, in order.
pub open spec fn row_pairs(s: Seq<char>, dst: Seq<Seq<char>>) -> Seq<NamePair> {
    dst.map_values(|d: Seq<char>| (s, d))
}

/// The cartesian product `src × dst`: sources outer, destinations inner.
pub open spec fn network_pairs(src: Seq<Seq<char>>, dst: Seq<Seq<char>>) -> Seq<NamePair>
    decreases src.len(),
{
    if src.len() == 0 {
        Seq::empty()
    } else {
        network_pairs(src.drop_last(), dst) + row_pairs(src.last(), dst)
    }
}

/// The test "`m` lists this pair".
pub open spec fn listed(m: Map<NamePair, i32>) -> spec_fn(NamePair) -> bool {
    |q: NamePair| m.contains_key(q)
}

/// The test "this pair has priority `v` in `m`".
pub open spec fn priority_is(m: Map<NamePair, i32>, v: i32) -> spec_fn(NamePair) -> bool {
    |q: NamePair| m[q] == v
}

/// The pairs of `s` that `m` lists.
pub open spec fn admitted(s: Seq<NamePair>, m: Map<NamePair, i32>) -> Seq<NamePair> {
    s.filter(listed(m))
}

/// The pairs of `s` whose priority in `m` is `v`, in order.
pub open spec fn with_priority(s: Seq<NamePair>, m: Map<NamePair, i32>, v: i32) -> Seq<NamePair> {
    s.filter(priority_is(m, v))
}

/// Priorities never decrease along `s`.
pub open spec fn sorted_by_priority(s: Seq<NamePair>, m: Map<NamePair, i32>) -> bool {
    forall|i: int, j: int| 0 <= i < j < s.len() ==> m[#[trigger] s[i]] <= m[#[trigger] s[j]]
}

/// `r` is `f` sorted by priority, keeping the order of `f` among equal
/// priorities.
pub open spec fn stable_sorted(r: Seq<NamePair>, f: Seq<NamePair>, m: Map<NamePair, i32>) -> bool {
    &&& sorted_by_priority(r, m)
    &&& forall|v: i32| #[trigger] with_priority(r, m, v) == with_priority(f, m, v)
}

/// The first pair of `f` whose priority is the least in `f`; `None` when `f`
/// is empty.
pub open spec fn best_pair(f: Seq<NamePair>, m: Map<NamePair, i32>) -> Option<NamePair>
    decreases f.len(),
{
    if f.len() == 0 {
        None
    } else {
        match best_pair(f.drop_last(), m) {
            Some(b) => if m[f.last()] < m[b] {
                Some(f.last())
            } else {
                Some(b)
            },
            None => Some(f.last()),
        }
    }
}

/// The candidate pairs from networks `src` to the networks of `addrs` that
/// `m` admits, in candidate order.
pub open spec fn candidate_pairs(
    m: Map<NamePair, i32>,
    src: Seq<Seq<char>>,
    addrs: Seq<MachineAddress>,
) -> Seq<NamePair> {
    admitted(network_pairs(src, distinct_networks(addrs)), m)
}

/// Whether `v` holds the name `s`.
fn contains_name(v: &Vec<String>, s: &String) -> (r: bool)
    ensures
        r == names(v@).contains(s@),
{
    let mut i: usize = 0;
    while i < v.len()
        invariant
            i <= v.len(),
            forall|k: int| 0 <= k < i ==> (#[trigger] v@[k])@ != s@,
        decreases v.len() - i,
    {
        if v[i].eq(s) {
            assert(names(v@)[i as int] == s@);
            return true;
        }
        i += 1;
    }
    proof {
        if names(v@).contains(s@) {
            let k = choose|k: int| 0 <= k < names(v@).len() && names(v@)[k] == s@;
            assert(v@[k]@ == s@);
        }
    }
    false
}

/// The networks of `addresses`, each once, in order of first appearance.
fn get_dest_networks(addresses: &Vec<MachineAddress>) -> (r: Vec<String>)
    ensures
        names(r@) == distinct_networks(addresses@),
{
    let mut r: Vec<String> = Vec::new();
    let mut i: usize = 0;
    while i < addresses.len()
        invariant
            i <= addresses.len(),
            names(r@) == distinct_networks(addresses@.take(i as int)),
        decreases addresses.len() - i,
    {
        proof {
            assert(addresses@.take(i + 1).drop_last() =~= addresses@.take(i as int));
        }
        let net = &addresses[i].network;
        if !contains_name(&r, net) {
            r.push(net.clone());
            proof {
                assert(names(r@) =~= distinct_networks(addresses@.take(i as int)).push(net@));
            }
        }
        i += 1;
    }
    proof {
        assert(addresses@.take(addresses.len() as int) =~= addresses@);
    }
    r
}

/// `f` with `x` appended, seen through `with_priority`.
proof fn lemma_with_priority_push(f: Seq<NamePair>, x: NamePair, m: Map<NamePair, i32>, v: i32)
    ensures
        with_priority(f.push(x), m, v) == if m[x] == v {
            with_priority(f, m, v).push(x)
        } else {
            with_priority(f, m, v)
        },
{
}

/// Inserting `x` at `pos`, where everything after `pos` has a priority above
/// that of `x`, appends `x` to its own priority class and leaves the others.
proof fn lemma_with_priority_insert(
    s: Seq<NamePair>,
    pos: int,
    x: NamePair,
    m: Map<NamePair, i32>,
    v: i32,
)
    requires
        0 <= pos <= s.len(),
        forall|t: int| pos <= t < s.len() ==> m[#[trigger] s[t]] > m[x],
    ensures
        with_priority(s.insert(pos, x), m, v) == if m[x] == v {
            with_priority(s, m, v).push(x)
        } else {
            with_priority(s, m, v)
        },
{
    let a = s.take(pos);
    let b = s.skip(pos);
    let pred = priority_is(m, v);
    assert(s.insert(pos, x) =~= a.push(x) + b);
    assert(s =~= a + b);
    Seq::filter_distributes_over_add(a.push(x), b, pred);
    Seq::filter_distributes_over_add(a, b, pred);
    if m[x] == v {
        assert forall|t: int| 0 <= t < b.len() implies !pred(#[trigger] b[t]) by {
            assert(b[t] == s[pos + t]);
        }
        assert(b.all(|q: NamePair| !pred(q)));
        b.lemma_all_neg_filter_empty(pred);
        assert(b.filter(pred) =~= Seq::<NamePair>::empty());
        assert(a.filter(pred) + b.filter(pred) =~= a.filter(pred));
        assert(a.filter(pred).push(x) + b.filter(pred) =~= a.filter(pred).push(x));
    }
}

/// Inserting `x` between the pairs of priority at most its own and those
/// above it keeps a sorted list sorted.
proof fn lemma_sorted_insert(ov: Seq<NamePair>, pos: int, x: NamePair, m: Map<NamePair, i32>)
    requires
        0 <= pos <= ov.len(),
        sorted_by_priority(ov, m),
        forall|t: int| 0 <= t < pos ==> m[#[trigger] ov[t]] <= m[x],
        forall|t: int| pos <= t < ov.len() ==> m[#[trigger] ov[t]] > m[x],
    ensures
        sorted_by_priority(ov.insert(pos, x), m),
{
    let nv = ov.insert(pos, x);
    ov.insert_ensures(pos, x);
    assert forall|a: int, b: int| 0 <= a < b < nv.len() implies m[#[trigger] nv[a]]
        <= m[#[trigger] nv[b]] by {
        if b < pos {
            assert(nv[a] == ov[a] && nv[b] == ov[b]);
        } else if a > pos {
            assert(nv[a] == ov[a - 1] && nv[b] == ov[b - 1]);
        } else if a == pos {
            assert(nv[b] == ov[b - 1]);
        } else if b == pos {
            assert(nv[a] == ov[a]);
        } else {
            assert(nv[a] == ov[a] && nv[b] == ov[b - 1]);
        }
    }
}

/// The (source network, destination network) pairs over which a machine on
/// `source_networks` reaches a machine with `addresses`, best first.
///
/// The candidates are `source_networks × (networks of addresses)`, sources
/// outer, each destination network once in order of first appearance. Pairs
/// that the priority map does not list are dropped; the rest are sorted by
/// ascending priority, and pairs of equal priority keep their candidate order.
#[verifier::rlimit(40)]
pub fn get_network_to_network(
    network_links_priority_map: &NetworkLinksPriorityMap,
    source_networks: &Vec<String>,
    addresses: &Vec<MachineAddress>,
) -> (r: Vec<(String, String)>)
    ensures
        stable_sorted(
            pairs_view(r@),
            admitted(
                network_pairs(names(source_networks@), distinct_networks(addresses@)),
                network_links_priority_map@,
            ),
            network_links_priority_map@,
        ),
        forall|t: int|
            0 <= t < r@.len() ==> network_links_priority_map@.contains_key(
                #[trigger] pairs_view(r@)[t],
            ),
        best_pair(
            candidate_pairs(network_links_priority_map@, names(source_networks@), addresses@),
            network_links_priority_map@,
        ) == if r@.len() == 0 {
            None
        } else {
            Some(pairs_view(r@)[0])
        },
{
    let m = network_links_priority_map;
    let dest = get_dest_networks(addresses);
    let ghost src = names(source_networks@);
    let ghost dst = names(dest@);
    let mut cand: Vec<(String, String)> = Vec::new();
    let mut cand_prio: Vec<i32> = Vec::new();
    let mut i: usize = 0;
    while i < source_networks.len()
        invariant
            i <= source_networks.len(),
            src == names(source_networks@),
            dst == names(dest@),
            pairs_view(cand@) == admitted(network_pairs(src.take(i as int), dst), m@),
            cand_prio@.len() == cand@.len(),
            forall|t: int|
                0 <= t < cand@.len() ==> m@.contains_key(#[trigger] pairs_view(cand@)[t])
                    && cand_prio@[t] == m@[pairs_view(cand@)[t]],
        decreases source_networks.len() - i,
    {
        let s = &source_networks[i];
        let ghost before = pairs_view(cand@);
        let mut j: usize = 0;
        while j < dest.len()
            invariant
                i < source_networks.len(),
                j <= dest.len(),
                s == source_networks@[i as int],
                src == names(source_networks@),
                dst == names(dest@),
                before == admitted(network_pairs(src.take(i as int), dst), m@),
                pairs_view(cand@) == before + admitted(row_pairs(s@, dst.take(j as int)), m@),
                cand_prio@.len() == cand@.len(),
                forall|t: int|
                    0 <= t < cand@.len() ==> m@.contains_key(#[trigger] pairs_view(cand@)[t])
                        && cand_prio@[t] == m@[pairs_view(cand@)[t]],
            decreases dest.len() - j,
        {
            let d = &dest[j];
            let ghost row = row_pairs(s@, dst.take(j as int));
            proof {
                assert(row_pairs(s@, dst.take(j + 1)) =~= row.push((s@, d@)));
            }
            match m.get(s, d) {
                Some(p) => {
                    let ghost old_cand = pairs_view(cand@);
                    cand.push((s.clone(), d.clone()));
                    cand_prio.push(p);
                    proof {
                        assert(pairs_view(cand@) =~= old_cand.push((s@, d@)));
                        assert(before + admitted(row, m@).push((s@, d@)) =~= (before + admitted(
                            row,
                            m@,
                        )).push((s@, d@)));
                    }
                },
                None => {},
            }
            j += 1;
        }
        proof {
            assert(dst.take(dest.len() as int) =~= dst);
            assert(src.take(i + 1).drop_last() =~= src.take(i as int));
            assert(src.take(i + 1).last() == s@);
            Seq::filter_distributes_over_add(
                network_pairs(src.take(i as int), dst),
                row_pairs(s@, dst),
                listed(m@),
            );
        }
        i += 1;
    }
    proof {
        assert(src.take(source_networks.len() as int) =~= src);
    }
    let ghost cv = pairs_view(cand@);
    let mut out: Vec<(String, String)> = Vec::new();
    let mut out_prio: Vec<i32> = Vec::new();
    let mut k: usize = 0;
    while k < cand.len()
        invariant
            k <= cand.len(),
            cv == pairs_view(cand@),
            cand_prio@.len() == cand@.len(),
            forall|t: int|
                0 <= t < cand@.len() ==> m@.contains_key(#[trigger] pairs_view(cand@)[t])
                    && cand_prio@[t] == m@[pairs_view(cand@)[t]],
            out_prio@.len() == out@.len(),
            forall|t: int|
                0 <= t < out@.len() ==> m@.contains_key(#[trigger] pairs_view(out@)[t])
                    && out_prio@[t] == m@[pairs_view(out@)[t]],
            sorted_by_priority(pairs_view(out@), m@),
            out@.len() == k,
            best_pair(cv.take(k as int), m@) == if k == 0 {
                None
            } else {
                Some(pairs_view(out@)[0])
            },
            forall|v: i32|
                #[trigger] with_priority(pairs_view(out@), m@, v) == with_priority(
                    cv.take(k as int),
                    m@,
                    v,
                ),
        decreases cand.len() - k,
    {
        let p = cand_prio[k];
        let mut pos: usize = out.len();
        while pos > 0 && out_prio[pos - 1] > p
            invariant
                pos <= out@.len(),
                out_prio@.len() == out@.len(),
                forall|t: int| pos <= t < out@.len() ==> out_prio@[t] > p,
            decreases pos,
        {
            pos -= 1;
        }
        let ghost ov = pairs_view(out@);
        let ghost xv = cv[k as int];
        proof {
            assert(m@[xv] == p);
            assert forall|t: int| 0 <= t < pos implies m@[#[trigger] ov[t]] <= p by {
                assert(m@[ov[t]] <= m@[ov[pos - 1]]);
            }
            assert forall|t: int| pos <= t < ov.len() implies m@[#[trigger] ov[t]] > m@[xv] by {
                assert(out_prio@[t] == m@[ov[t]]);
            }
        }
        let pair = (cand[k].0.clone(), cand[k].1.clone());
        out.insert(pos, pair);
        out_prio.insert(pos, p);
        proof {
            let nv = pairs_view(out@);
            assert(nv =~= ov.insert(pos as int, xv));
            ov.insert_ensures(pos as int, xv);
            assert(cv.take(k + 1) =~= cv.take(k as int).push(xv));
            assert(cv.take(k + 1).drop_last() =~= cv.take(k as int));
            if pos == 0 && k > 0 {
                assert(m@[ov[0]] > m@[xv]);
            }
            if pos > 0 {
                assert(m@[ov[0]] <= p);
                assert(nv[0] == ov[0]);
            }
            assert forall|v: i32|
                #[trigger] with_priority(nv, m@, v) == with_priority(cv.take(k + 1), m@, v) by {
                lemma_with_priority_insert(ov, pos as int, xv, m@, v);
                lemma_with_priority_push(cv.take(k as int), xv, m@, v);
            }
            lemma_sorted_insert(ov, pos as int, xv, m@);
            assert forall|t: int| 0 <= t < out@.len() implies m@.contains_key(
                #[trigger] pairs_view(out@)[t],
            ) && out_prio@[t] == m@[pairs_view(out@)[t]] by {
                if t < pos {
                    assert(nv[t] == ov[t]);
                } else if t > pos {
                    assert(nv[t] == ov[t - 1]);
                }
            }
        }
        k += 1;
    }
    proof {
        assert(cv.take(cand.len() as int) =~= cv);
    }
    out
}

/// A sorted list has no pair with a priority above that of its last pair.
proof fn lemma_sorted_last_is_max(r: Seq<NamePair>, m: Map<NamePair, i32>, t: int)
    requires
        sorted_by_priority(r, m),
        0 <= t < r.len(),
    ensures
        m[r[t]] <= m[r.last()],
{
    if t < r.len() - 1 {
        assert(m[r[t]] <= m[r[r.len() - 1]]);
    }
}

/// A pair of priority `v` at place `t` of `r` shows up among the pairs of that
/// priority.
proof fn lemma_with_priority_nonempty(r: Seq<NamePair>, m: Map<NamePair, i32>, t: int)
    requires
        0 <= t < r.len(),
    ensures
        with_priority(r, m, m[r[t]]).len() > 0,
{
    r.lemma_filter_contains(priority_is(m, m[r[t]]), t);
}

/// Resolving is deterministic: two lists that are both `f` sorted stably by
/// priority are the same list.
pub proof fn lemma_stable_sort_unique(
    r1: Seq<NamePair>,
    r2: Seq<NamePair>,
    f: Seq<NamePair>,
    m: Map<NamePair, i32>,
)
    requires
        stable_sorted(r1, f, m),
        stable_sorted(r2, f, m),
    ensures
        r1 == r2,
{
    lemma_sorted_pair_lists_equal(r1, r2, m);
}

/// Two sorted lists with the same pairs in each priority class are equal.
proof fn lemma_sorted_pair_lists_equal(r1: Seq<NamePair>, r2: Seq<NamePair>, m: Map<NamePair, i32>)
    requires
        sorted_by_priority(r1, m),
        sorted_by_priority(r2, m),
        forall|v: i32| #[trigger] with_priority(r1, m, v) == with_priority(r2, m, v),
    ensures
        r1 == r2,
    decreases r1.len() + r2.len(),
{
    if r1.len() == 0 && r2.len() == 0 {
        assert(r1 =~= r2);
    } else if r1.len() == 0 {
        lemma_with_priority_nonempty(r2, m, 0);
        reveal(Seq::filter);
        assert(with_priority(r1, m, m[r2[0]]).len() == 0);
        assert(false);
    } else if r2.len() == 0 {
        lemma_with_priority_nonempty(r1, m, 0);
        reveal(Seq::filter);
        assert(with_priority(r2, m, m[r1[0]]).len() == 0);
        assert(false);
    } else {
        let a = r1.last();
        let b = r2.last();
        let va = m[a];
        let vb = m[b];
        if va < vb {
            lemma_with_priority_nonempty(r2, m, r2.len() - 1);
            let w = with_priority(r1, m, vb);
            assert(w.len() > 0);
            r1.filter_lemma(priority_is(m, vb));
            assert(w.contains(w[0]));
            r1.lemma_filter_contains_rev(priority_is(m, vb), w[0]);
            assert(r1.contains(w[0]));
            let t = choose|t: int| 0 <= t < r1.len() && r1[t] == w[0];
            lemma_sorted_last_is_max(r1, m, t);
            assert(false);
        }
        if vb < va {
            lemma_with_priority_nonempty(r1, m, r1.len() - 1);
            let w = with_priority(r2, m, va);
            assert(w.len() > 0);
            r2.filter_lemma(priority_is(m, va));
            assert(w.contains(w[0]));
            r2.lemma_filter_contains_rev(priority_is(m, va), w[0]);
            assert(r2.contains(w[0]));
            let t = choose|t: int| 0 <= t < r2.len() && r2[t] == w[0];
            lemma_sorted_last_is_max(r2, m, t);
            assert(false);
        }
        let p1 = r1.drop_last();
        let p2 = r2.drop_last();
        assert(r1 =~= p1.push(a));
        assert(r2 =~= p2.push(b));
        lemma_with_priority_push(p1, a, m, va);
        lemma_with_priority_push(p2, b, m, va);
        assert(with_priority(r1, m, va).last() == a);
        assert(with_priority(r2, m, va).last() == b);
        assert forall|v: i32| #[trigger] with_priority(p1, m, v) == with_priority(p2, m, v) by {
            lemma_with_priority_push(p1, a, m, v);
            lemma_with_priority_push(p2, b, m, v);
            assert(with_priority(r1, m, v) == with_priority(r2, m, v));
            if v == va {
                assert(with_priority(p1, m, v) =~= with_priority(r1, m, v).drop_last());
                assert(with_priority(p2, m, v) =~= with_priority(r2, m, v).drop_last());
            }
        }
        assert(sorted_by_priority(p1, m)) by {
            assert forall|i: int, j: int| 0 <= i < j < p1.len() implies m[#[trigger] p1[i]]
                <= m[#[trigger] p1[j]] by {
                assert(p1[i] == r1[i] && p1[j] == r1[j]);
            }
        }
        assert(sorted_by_priority(p2, m)) by {
            assert forall|i: int, j: int| 0 <= i < j < p2.len() implies m[#[trigger] p2[i]]
                <= m[#[trigger] p2[j]] by {
                assert(p2[i] == r2[i] && p2[j] == r2[j]);
            }
        }
        lemma_sorted_pair_lists_equal(p1, p2, m);
    }
}

/// How many pairs before place `i` of `s` have priority `v`.
pub open spec fn rank(s: Seq<NamePair>, m: Map<NamePair, i32>, v: i32, i: int) -> int {
    with_priority(s.take(i), m, v).len() as int
}

/// A pair of priority `v` stands, among the pairs of that priority, at its
/// rank.
proof fn lemma_rank_place(s: Seq<NamePair>, m: Map<NamePair, i32>, v: i32, i: int)
    requires
        0 <= i < s.len(),
        m[s[i]] == v,
    ensures
        0 <= rank(s, m, v, i) < with_priority(s, m, v).len(),
        with_priority(s, m, v)[rank(s, m, v, i)] == s[i],
{
    let pred = priority_is(m, v);
    assert(s.take(i + 1) =~= s.take(i).push(s[i]));
    lemma_with_priority_push(s.take(i), s[i], m, v);
    assert(s =~= s.take(i + 1) + s.skip(i + 1));
    Seq::filter_distributes_over_add(s.take(i + 1), s.skip(i + 1), pred);
}

/// Ranks do not decrease along `s`.
proof fn lemma_rank_monotone(s: Seq<NamePair>, m: Map<NamePair, i32>, v: i32, i: int, j: int)
    requires
        0 <= i <= j <= s.len(),
    ensures
        rank(s, m, v, i) <= rank(s, m, v, j),
{
    assert(s.take(j).take(i) =~= s.take(i));
    s.take(j).lemma_filter_take_len(priority_is(m, v), i);
}

/// Each pair of priority `v` comes from some place of `s` whose rank is its
/// position among them.
proof fn lemma_rank_source(s: Seq<NamePair>, m: Map<NamePair, i32>, v: i32, a: int)
    requires
        0 <= a < with_priority(s, m, v).len(),
    ensures
        exists|p: int|
            0 <= p < s.len() && s[p] == with_priority(s, m, v)[a] && #[trigger] rank(s, m, v, p)
                == a,
    decreases s.len(),
{
    let t = s.drop_last();
    let x = s.last();
    assert(s =~= t.push(x));
    lemma_with_priority_push(t, x, m, v);
    if a < with_priority(t, m, v).len() {
        lemma_rank_source(t, m, v, a);
        let p = choose|p: int|
            0 <= p < t.len() && t[p] == with_priority(t, m, v)[a] && #[trigger] rank(t, m, v, p)
                == a;
        assert(s.take(p) =~= t.take(p));
        assert(s[p] == t[p]);
        assert(rank(s, m, v, p) == a);
    } else {
        let p = s.len() - 1;
        assert(s.take(p) =~= t);
        assert(rank(s, m, v, p) == a);
    }
}

/// Pairs of equal priority keep their candidate order: when two pairs of one
/// priority stand in that order in the resolved list, they stand in that order
/// among the candidates `f`.
pub proof fn lemma_ties_keep_candidate_order(
    r: Seq<NamePair>,
    f: Seq<NamePair>,
    m: Map<NamePair, i32>,
    i: int,
    j: int,
)
    requires
        stable_sorted(r, f, m),
        0 <= i < j < r.len(),
        m[r[i]] == m[r[j]],
    ensures
        exists|p: int, q: int| 0 <= p < q < f.len() && f[p] == r[i] && f[q] == r[j],
{
    let v = m[r[i]];
    let w = with_priority(r, m, v);
    assert(w == with_priority(f, m, v));
    lemma_rank_place(r, m, v, i);
    lemma_rank_place(r, m, v, j);
    let a = rank(r, m, v, i);
    let b = rank(r, m, v, j);
    assert(r.take(j).take(i + 1) =~= r.take(i + 1));
    assert(r.take(i + 1) =~= r.take(i).push(r[i]));
    lemma_with_priority_push(r.take(i), r[i], m, v);
    lemma_rank_monotone(r, m, v, i + 1, j);
    assert(a < b);
    lemma_rank_source(f, m, v, a);
    lemma_rank_source(f, m, v, b);
    let p = choose|p: int|
        0 <= p < f.len() && f[p] == with_priority(f, m, v)[a] && #[trigger] rank(f, m, v, p) == a;
    let q = choose|q: int|
        0 <= q < f.len() && f[q] == with_priority(f, m, v)[b] && #[trigger] rank(f, m, v, q) == b;
    if q <= p {
        lemma_rank_monotone(f, m, v, q, p);
    }
    assert(0 <= p < q < f.len() && f[p] == r[i] && f[q] == r[j]);
}

} // verus!
