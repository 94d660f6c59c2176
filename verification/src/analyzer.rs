//! City-name frequency analysis over `(name, country)` records: the
//! distinct names with their occurrence counts, ranked by count first and
//! name order second, optionally restricted to names that occur at least
//! once in Germany.

use vstd::prelude::*;
use vstd::std_specs::vec::vec_index_mut;
use vstd::string::StrSliceExecFns;
use crate::seq_facts::lemma_insert_to_multiset;

verus! {

broadcast use vstd::seq_lib::group_to_multiset_ensures;

/// How often `name` occurs as a record's city name.
pub open spec fn occ(cities: Seq<(String, String)>, name: Seq<char>) -> int
    decreases cities.len(),
{
    if cities.len() == 0 {
        0
    } else {
        occ(cities.drop_last(), name) + if cities.last().0@ == name {
            1int
        } else {
            0int
        }
    }
}

/// How often `name` occurs with the country code `DE`.
pub open spec fn occ_de(cities: Seq<(String, String)>, name: Seq<char>) -> int
    decreases cities.len(),
{
    if cities.len() == 0 {
        0
    } else {
        occ_de(cities.drop_last(), name) + if cities.last().0@ == name && cities.last().1@ == "DE"@ {
            1int
        } else {
            0int
        }
    }
}

proof fn lemma_occ_bounds(cities: Seq<(String, String)>, name: Seq<char>)
    ensures
        0 <= occ(cities, name) <= cities.len(),
        0 <= occ_de(cities, name) <= occ(cities, name),
    decreases cities.len(),
{
    if cities.len() > 0 {
        lemma_occ_bounds(cities.drop_last(), name);
    }
}

/// Character-lexicographic order on names.
pub open spec fn lex_le(a: Seq<char>, b: Seq<char>) -> bool
    decreases a.len(),
{
    if a.len() == 0 {
        true
    } else if b.len() == 0 {
        false
    } else if (a[0] as int) < (b[0] as int) {
        true
    } else if (a[0] as int) > (b[0] as int) {
        false
    } else {
        lex_le(a.drop_first(), b.drop_first())
    }
}

proof fn lemma_lex_total(a: Seq<char>, b: Seq<char>)
    ensures
        lex_le(a, b) || lex_le(b, a),
    decreases a.len(),
{
    if a.len() > 0 && b.len() > 0 && a[0] == b[0] {
        lemma_lex_total(a.drop_first(), b.drop_first());
    }
}

proof fn lemma_lex_trans(a: Seq<char>, b: Seq<char>, c: Seq<char>)
    requires
        lex_le(a, b),
        lex_le(b, c),
    ensures
        lex_le(a, c),
    decreases a.len(),
{
    if a.len() > 0 && b.len() > 0 && c.len() > 0 && a[0] == b[0] && b[0] == c[0] {
        lemma_lex_trans(a.drop_first(), b.drop_first(), c.drop_first());
    }
}

/// Count-major, name-minor order of table entries.
pub open spec fn rank_before(a: (String, usize), b: (String, usize)) -> bool {
    a.1 > b.1 || (a.1 == b.1 && lex_le(a.0@, b.0@))
}

proof fn lemma_rank_trans(a: (String, usize), b: (String, usize), c: (String, usize))
    requires
        rank_before(a, b),
        rank_before(b, c),
    ensures
        rank_before(a, c),
{
    if a.1 == b.1 && b.1 == c.1 {
        lemma_lex_trans(a.0@, b.0@, c.0@);
    }
}

proof fn lemma_rank_total(a: (String, usize), b: (String, usize))
    requires
        !rank_before(a, b),
    ensures
        rank_before(b, a),
{
    lemma_lex_total(a.0@, b.0@);
}

/// Entries ranked in non-increasing order of count, names ascending among
/// equal counts.
pub open spec fn rank_sorted(r: Seq<(String, usize)>) -> bool {
    forall|i: int, j: int|
        #![trigger r[i], r[j]]
        0 <= i < j < r.len() ==> rank_before(r[i], r[j])
}

/// Each table entry carries a name's exact occurrence count.
pub open spec fn entry_counts_ok(cities: Seq<(String, String)>, r: Seq<(String, usize)>) -> bool {
    forall|i: int|
        0 <= i < r.len() ==> (#[trigger] r[i]).1 == occ(cities, r[i].0@) && r[i].1 >= 1
}

/// Among the entries restricted to Germany, counts still cover all
/// occurrences, but only names seen there at least once appear.
pub open spec fn entry_counts_de_ok(cities: Seq<(String, String)>, r: Seq<(String, usize)>) -> bool {
    forall|i: int|
        0 <= i < r.len() ==> (#[trigger] r[i]).1 == occ(cities, r[i].0@) && r[i].1 >= 1 && occ_de(
            cities,
            r[i].0@,
        ) >= 1
}

/// No name appears twice in the table.
pub open spec fn names_distinct(r: Seq<(String, usize)>) -> bool {
    forall|i: int, j: int|
        #![trigger r[i], r[j]]
        0 <= i < j < r.len() ==> r[i].0@ != r[j].0@
}

/// `name` appears in the table.
pub open spec fn contains_name(r: Seq<(String, usize)>, name: Seq<char>) -> bool {
    exists|i: int| 0 <= i < r.len() && (#[trigger] r[i]).0@ == name
}

/// Every record's name appears in the table.
pub open spec fn covers_all(cities: Seq<(String, String)>, r: Seq<(String, usize)>) -> bool {
    forall|c: int| 0 <= c < cities.len() ==> contains_name(r, (#[trigger] cities[c]).0@)
}

/// Every record with country `DE` has its name in the table.
pub open spec fn covers_de(cities: Seq<(String, String)>, r: Seq<(String, usize)>) -> bool {
    forall|c: int|
        0 <= c < cities.len() && (#[trigger] cities[c]).1@ == "DE"@ ==> contains_name(
            r,
            cities[c].0@,
        )
}

/// Whether a country string is the code `DE`.
fn is_de(s: &String) -> (b: bool)
    ensures
        b == (s@ == "DE"@),
{
    proof {
        reveal_strlit("DE");
    }
    let st = s.as_str();
    let n = st.unicode_len();
    if n != 2 {
        return false;
    }
    let r = st.get_char(0) == 'D' && st.get_char(1) == 'E';
    proof {
        if r {
            assert(s@ =~= "DE"@);
        }
    }
    r
}

/// Every record of `cities` has its name in the counting table.
pub open spec fn covers3(cities: Seq<(String, String)>, acc: Seq<(String, usize, usize)>) -> bool {
    forall|c: int|
        0 <= c < cities.len() ==> exists|i: int|
            0 <= i < acc.len() && (#[trigger] acc[i]).0@ == (#[trigger] cities[c]).0@
}

/// Counting pass: the distinct names of the records seen so far with their
/// total and their `DE` occurrence counts.
#[verifier::rlimit(100)]
fn count_names(cities: &Vec<(String, String)>) -> (acc: Vec<(String, usize, usize)>)
    ensures
        forall|i: int|
            0 <= i < acc@.len() ==> {
                let e = #[trigger] acc@[i];
                e.1 == occ(cities@, e.0@) && e.1 >= 1 && e.2 == occ_de(cities@, e.0@)
            },
        forall|i: int, j: int|
            #![trigger acc@[i], acc@[j]]
            0 <= i < j < acc@.len() ==> acc@[i].0@ != acc@[j].0@,
        covers3(cities@, acc@),
{
    let n: usize = cities.len();
    let mut acc: Vec<(String, usize, usize)> = Vec::new();
    let mut c: usize = 0;
    while c < n
        invariant
            c <= n,
            n == cities@.len(),
            forall|i: int|
                0 <= i < acc@.len() ==> {
                    let e = #[trigger] acc@[i];
                    e.1 == occ(cities@.take(c as int), e.0@) && e.1 >= 1 && e.2 == occ_de(
                        cities@.take(c as int),
                        e.0@,
                    )
                },
            forall|i: int, j: int|
                #![trigger acc@[i], acc@[j]]
                0 <= i < j < acc@.len() ==> acc@[i].0@ != acc@[j].0@,
            covers3(cities@.take(c as int), acc@),
        decreases n - c,
    {
        let ghost a0 = acc@;
        let ghost pre = cities@.take(c as int);
        let ghost post = cities@.take(c + 1);
        proof {
            assert(post.drop_last() =~= pre);
            assert(post.last() == cities@[c as int]);
            lemma_occ_bounds(pre, cities@[c as int].0@);
        }
        let de = is_de(&cities[c].1);
        let alen = acc.len();
        let mut idx: usize = 0;
        let mut found = false;
        while idx < alen && !found
            invariant
                idx <= alen,
                alen == acc@.len(),
                (c as int) < cities@.len(),
                forall|x: int| 0 <= x < idx ==> (#[trigger] acc@[x]).0@ != cities@[c as int].0@,
                found ==> idx < alen && acc@[idx as int].0@ == cities@[c as int].0@,
            decreases alen - idx + (if found {
                0int
            } else {
                1int
            }),
        {
            if acc[idx].0 == cities[c].0 {
                found = true;
            } else {
                idx += 1;
            }
        }
        if found {
            let e = vec_index_mut(&mut acc, idx);
            let cnt = e.1;
            let dcnt = e.2;
            proof {
                assert(a0[idx as int].1 == occ(pre, a0[idx as int].0@));
                assert(occ(pre, a0[idx as int].0@) <= pre.len());
            }
            e.1 = cnt + 1;
            e.2 = if de {
                dcnt + 1
            } else {
                dcnt
            };
            proof {
                assert(acc@ =~= a0.update(
                    idx as int,
                    (a0[idx as int].0, (cnt + 1) as usize, (if de {
                        (dcnt + 1) as usize
                    } else {
                        dcnt
                    })),
                ));
                assert forall|i: int|
                    0 <= i < acc@.len() implies {
                    let e2 = #[trigger] acc@[i];
                    e2.1 == occ(post, e2.0@) && e2.1 >= 1 && e2.2 == occ_de(post, e2.0@)
                } by {
                    if i == idx as int {
                        assert(acc@[i].0@ == cities@[c as int].0@);
                    } else {
                        assert(acc@[i] == a0[i]);
                        if i < idx as int {
                            assert(a0[i].0@ != a0[idx as int].0@);
                        } else {
                            assert(a0[idx as int].0@ != a0[i].0@);
                        }
                        assert(a0[idx as int].0@ == cities@[c as int].0@);
                    }
                }
                assert forall|cc: int|
                    0 <= cc < post.len() implies exists|i: int|
                        0 <= i < acc@.len() && (#[trigger] acc@[i]).0@ == (
                #[trigger] post[cc]).0@ by {
                    assert(post[cc] == cities@[cc]);
                    if cc < c {
                        assert(pre[cc] == cities@[cc]);
                        let i0 = choose|i: int|
                            0 <= i < a0.len() && (#[trigger] a0[i]).0@ == pre[cc].0@;
                        assert(acc@[i0].0@ == cities@[cc].0@);
                    } else {
                        assert(acc@[idx as int].0@ == cities@[cc].0@);
                    }
                }
                assert(covers3(post, acc@));
            }
        } else {
            let name = cities[c].0.clone();
            let entry = (name, 1usize, (if de {
                1usize
            } else {
                0usize
            }));
            acc.push(entry);
            proof {
                assert forall|i: int|
                    0 <= i < acc@.len() implies {
                    let e2 = #[trigger] acc@[i];
                    e2.1 == occ(post, e2.0@) && e2.1 >= 1 && e2.2 == occ_de(post, e2.0@)
                } by {
                    if i < a0.len() {
                        assert(acc@[i] == a0[i]);
                        assert(a0[i].0@ != cities@[c as int].0@);
                    } else {
                        assert(acc@[i].0@ == cities@[c as int].0@);
                        lemma_occ_bounds(pre, cities@[c as int].0@);
                        assert(occ(pre, cities@[c as int].0@) == 0) by {
                            lemma_absent_occ(cities@, c as int, c as int, a0);
                        }
                    }
                }
                assert forall|cc: int|
                    0 <= cc < post.len() implies exists|i: int|
                        0 <= i < acc@.len() && (#[trigger] acc@[i]).0@ == (
                #[trigger] post[cc]).0@ by {
                    assert(post[cc] == cities@[cc]);
                    if cc < c {
                        assert(pre[cc] == cities@[cc]);
                        let i0 = choose|i: int|
                            0 <= i < a0.len() && (#[trigger] a0[i]).0@ == pre[cc].0@;
                        assert(acc@[i0].0@ == cities@[cc].0@);
                    } else {
                        assert(acc@[a0.len() as int].0@ == cities@[cc].0@);
                    }
                }
                assert(covers3(post, acc@));
            }
        }
        c += 1;
    }
    proof {
        assert(cities@.take(n as int) =~= cities@);
    }
    acc
}

/// A name missing from a table that covers the first `c` records never
/// occurs among the first `k <= c` of them.
proof fn lemma_absent_occ(
    cities: Seq<(String, String)>,
    c: int,
    k: int,
    a0: Seq<(String, usize, usize)>,
)
    requires
        0 <= k <= c < cities.len(),
        covers3(cities.take(c), a0),
        forall|x: int| 0 <= x < a0.len() ==> (#[trigger] a0[x]).0@ != cities[c].0@,
    ensures
        occ(cities.take(k), cities[c].0@) == 0,
    decreases k,
{
    if k > 0 {
        let pre = cities.take(k);
        assert(pre.last() == cities[k - 1]);
        assert(pre.last().0@ != cities[c].0@) by {
            assert(cities.take(c)[k - 1] == cities[k - 1]);
            let i0 = choose|i: int|
                0 <= i < a0.len() && (#[trigger] a0[i]).0@ == cities.take(c)[k - 1].0@;
            assert(a0[i0].0@ != cities[c].0@);
        }
        assert(pre.drop_last() =~= cities.take(k - 1));
        lemma_absent_occ(cities, c, k - 1, a0);
    }
}

/// Ranks a table whose names are distinct, keeping its multiset of
/// entries.
#[verifier::rlimit(100)]
fn sort_by_rank(src: Vec<(String, usize)>) -> (r: Vec<(String, usize)>)
    requires
        names_distinct(src@),
    ensures
        r@.to_multiset() == src@.to_multiset(),
        rank_sorted(r@),
        names_distinct(r@),
        r@.len() == src@.len(),
{
    let mut src = src;
    let mut out: Vec<(String, usize)> = Vec::new();
    let ghost total = src@.to_multiset();
    let ghost total_len = src@.len();
    loop
        invariant_except_break
            out@.to_multiset().add(src@.to_multiset()) == total,
            total == src@.to_multiset().add(out@.to_multiset()),
            out@.len() + src@.len() == total_len,
            rank_sorted(out@),
            forall|i: int, j: int|
                #![trigger out@[i], src@[j]]
                0 <= i < out@.len() && 0 <= j < src@.len() ==> out@[i].0@ != src@[j].0@,
            names_distinct(out@),
            names_distinct(src@),
        ensures
            out@.to_multiset() == total,
            out@.len() == total_len,
            rank_sorted(out@),
            names_distinct(out@),
        decreases src@.len(),
    {
        let ghost s0 = src@;
        let popped = src.pop();
        let e = match popped {
            Option::Some(e) => e,
            Option::None => {
                proof {
                    broadcast use vstd::multiset::group_multiset_axioms;

                    assert(src@.to_multiset().len() == 0);
                    assert forall|e: (String, usize)|
                        out@.to_multiset().add(src@.to_multiset()).count(e) == out@.to_multiset()
                            .count(e) by {
                        assert(src@.to_multiset().count(e) <= src@.to_multiset().len());
                    }
                    assert(out@.to_multiset().add(src@.to_multiset()) =~= out@.to_multiset());
                }
                break ;
            },
        };
        proof {
            assert(s0.drop_last().push(e) =~= s0);
            assert(s0.to_multiset() == src@.to_multiset().insert(e));
        }
        let olen = out.len();
        let mut pos: usize = 0;
        let mut placed = false;
        while pos < olen && !placed
            invariant
                pos <= olen,
                olen == out@.len(),
                rank_sorted(out@),
                forall|x: int| 0 <= x < pos ==> !rank_before(e, #[trigger] out@[x]),
                placed ==> pos < olen && rank_before(e, out@[pos as int]),
            decreases olen - pos + (if placed {
                0int
            } else {
                1int
            }),
        {
            if rank_before_exec(&e, &out[pos]) {
                placed = true;
            } else {
                pos += 1;
            }
        }
        let ghost o0 = out@;
        proof {
            assert(forall|x: int|
                0 <= x < o0.len() ==> (#[trigger] o0[x]).0@ != e.0@) by {
                assert(forall|x: int|
                    0 <= x < o0.len() ==> #[trigger] o0[x].0@ != s0[s0.len() - 1].0@);
            }
        }
        out.insert(pos, e);
        proof {
            lemma_insert_to_multiset(o0, pos as int, e);
            assert forall|i: int, j: int|
                #![trigger out@[i], out@[j]]
                0 <= i < j < out@.len() implies rank_before(out@[i], out@[j]) && out@[i].0@
                != out@[j].0@ by {
                let a = out@[i];
                let b = out@[j];
                if j < pos {
                    assert(a == o0[i] && b == o0[j]);
                } else if i > pos {
                    assert(a == o0[i - 1] && b == o0[j - 1]);
                } else if i == pos && j > pos {
                    assert(a == e && b == o0[j - 1]);
                    assert((pos as int) < o0.len());
                    assert(rank_before(e, o0[pos as int]));
                    if j - 1 > pos {
                        assert(rank_before(o0[pos as int], o0[j - 1]));
                        lemma_rank_trans(e, o0[pos as int], o0[j - 1]);
                    }
                    assert(o0[j - 1].0@ != e.0@);
                } else if j == pos {
                    assert(a == o0[i] && b == e);
                    assert(!rank_before(e, o0[i]));
                    assert(o0[i].0@ != e.0@);
                    lemma_rank_total(e, o0[i]);
                } else {
                    assert(i < pos && j > pos);
                    assert(a == o0[i] && b == o0[j - 1]);
                }
            }
            assert forall|i: int, j: int|
                #![trigger out@[i], src@[j]]
                0 <= i < out@.len() && 0 <= j < src@.len() implies out@[i].0@ != src@[j].0@ by {
                if i != pos as int {
                    let oi = if i < pos as int {
                        i
                    } else {
                        i - 1
                    };
                    assert(out@[i] == o0[oi]);
                    assert(src@[j] == s0[j]);
                } else {
                    assert(out@[i] == e);
                    assert(src@[j] == s0[j]);
                    assert(s0[j].0@ != s0[s0.len() - 1].0@);
                }
            }
        }
    }
    out
}

/// Exactly the rank order, executably.
fn rank_before_exec(a: &(String, usize), b: &(String, usize)) -> (r: bool)
    ensures
        r == rank_before(*a, *b),
{
    if a.1 > b.1 {
        true
    } else if a.1 < b.1 {
        false
    } else {
        lex_le_exec(&a.0, &b.0)
    }
}

/// Character-lexicographic comparison of two names.
fn lex_le_exec(a: &String, b: &String) -> (r: bool)
    ensures
        r == lex_le(a@, b@),
{
    let sa = a.as_str();
    let sb = b.as_str();
    let na = sa.unicode_len();
    let nb = sb.unicode_len();
    let mut i: usize = 0;
    proof {
        assert(a@.skip(0) =~= a@);
        assert(b@.skip(0) =~= b@);
    }
    loop
        invariant_except_break
            i <= na,
            i <= nb,
            na == a@.len(),
            nb == b@.len(),
            sa@ == a@,
            sb@ == b@,
            lex_le(a@, b@) == lex_le(a@.skip(i as int), b@.skip(i as int)),
        ensures
            true,
        decreases na - i,
    {
        if i == na {
            proof {
                assert(a@.skip(i as int).len() == 0);
            }
            return true;
        }
        if i == nb {
            proof {
                assert(b@.skip(i as int).len() == 0);
                assert(a@.skip(i as int).len() > 0);
            }
            return false;
        }
        let ca = sa.get_char(i);
        let cb = sb.get_char(i);
        proof {
            assert(a@.skip(i as int)[0] == ca);
            assert(b@.skip(i as int)[0] == cb);
        }
        if (ca as u32) < (cb as u32) {
            return true;
        }
        if (ca as u32) > (cb as u32) {
            return false;
        }
        proof {
            assert(a@.skip(i as int).drop_first() =~= a@.skip(i + 1));
            assert(b@.skip(i as int).drop_first() =~= b@.skip(i + 1));
        }
        i += 1;
    }
}

/// An elementwise property survives any rearrangement of the table.
proof fn lemma_elements_transfer(
    a: Seq<(String, usize)>,
    b: Seq<(String, usize)>,
    pred: spec_fn((String, usize)) -> bool,
)
    requires
        a.to_multiset() == b.to_multiset(),
        forall|i: int| 0 <= i < a.len() ==> pred(#[trigger] a[i]),
    ensures
        forall|i: int| 0 <= i < b.len() ==> pred(#[trigger] b[i]),
{
    assert forall|i: int| 0 <= i < b.len() implies pred(#[trigger] b[i]) by {
        assert(b.contains(b[i]));
        assert(b.to_multiset().count(b[i]) > 0);
        assert(a.contains(b[i]));
        let ia = choose|x: int| 0 <= x < a.len() && a[x] == b[i];
        assert(pred(a[ia]));
    }
}

/// Membership of a name survives any rearrangement of the table.
proof fn lemma_contains_transfer(a: Seq<(String, usize)>, b: Seq<(String, usize)>, name: Seq<char>)
    requires
        a.to_multiset() == b.to_multiset(),
        contains_name(a, name),
    ensures
        contains_name(b, name),
{
    let ia = choose|i: int| 0 <= i < a.len() && (#[trigger] a[i]).0@ == name;
    assert(a.contains(a[ia]));
    assert(a.to_multiset().count(a[ia]) > 0);
    assert(b.contains(a[ia]));
    let ib = choose|x: int| 0 <= x < b.len() && b[x] == a[ia];
    assert(b[ib].0@ == name);
}

/// A record counted for Germany witnesses a positive `DE` count for its
/// name.
proof fn lemma_occ_de_member(cities: Seq<(String, String)>, c: int)
    requires
        0 <= c < cities.len(),
        cities[c].1@ == "DE"@,
    ensures
        occ_de(cities, cities[c].0@) >= 1,
    decreases cities.len(),
{
    lemma_occ_bounds(cities.drop_last(), cities[c].0@);
    if c < cities.len() - 1 {
        assert(cities.drop_last()[c] == cities[c]);
        lemma_occ_de_member(cities.drop_last(), c);
    }
}

/// Keeps each name with its total count.
fn project_counts(acc: &Vec<(String, usize, usize)>) -> (r: Vec<(String, usize)>)
    ensures
        r@.len() == acc@.len(),
        forall|i: int|
            0 <= i < r@.len() ==> (#[trigger] r@[i]).0@ == acc@[i].0@ && r@[i].1 == acc@[i].1,
{
    let n = acc.len();
    let mut r: Vec<(String, usize)> = Vec::new();
    let mut i: usize = 0;
    while i < n
        invariant
            i <= n,
            n == acc@.len(),
            r@.len() == i,
            forall|x: int|
                0 <= x < i ==> (#[trigger] r@[x]).0@ == acc@[x].0@ && r@[x].1 == acc@[x].1,
        decreases n - i,
    {
        let name = acc[i].0.clone();
        let cnt = acc[i].1;
        r.push((name, cnt));
        i += 1;
    }
    r
}

/// `name` with count `cnt` stems from one of the first `k` counting rows,
/// one that saw Germany at least once.
pub open spec fn name_in_prefix(
    acc: Seq<(String, usize, usize)>,
    name: Seq<char>,
    cnt: usize,
    k: int,
) -> bool {
    exists|j: int|
        0 <= j < k && (#[trigger] acc[j]).0@ == name && acc[j].1 == cnt && acc[j].2 >= 1
}

/// Keeps each name seen in Germany, with its total count.
fn project_de(cities: &Vec<(String, String)>, acc: &Vec<(String, usize, usize)>) -> (r: Vec<
    (String, usize),
>)
    requires
        forall|i: int|
            0 <= i < acc@.len() ==> {
                let e = #[trigger] acc@[i];
                e.1 == occ(cities@, e.0@) && e.1 >= 1 && e.2 == occ_de(cities@, e.0@)
            },
        forall|i: int, j: int|
            #![trigger acc@[i], acc@[j]]
            0 <= i < j < acc@.len() ==> acc@[i].0@ != acc@[j].0@,
    ensures
        entry_counts_de_ok(cities@, r@),
        names_distinct(r@),
        forall|j: int|
            0 <= j < acc@.len() && (#[trigger] acc@[j]).2 >= 1 ==> contains_name(r@, acc@[j].0@),
{
    let n = acc.len();
    let mut r: Vec<(String, usize)> = Vec::new();
    let mut k: usize = 0;
    while k < n
        invariant
            k <= n,
            n == acc@.len(),
            forall|i: int|
                0 <= i < acc@.len() ==> {
                    let e = #[trigger] acc@[i];
                    e.1 == occ(cities@, e.0@) && e.1 >= 1 && e.2 == occ_de(cities@, e.0@)
                },
            forall|i: int, j: int|
                #![trigger acc@[i], acc@[j]]
                0 <= i < j < acc@.len() ==> acc@[i].0@ != acc@[j].0@,
            forall|i: int|
                0 <= i < r@.len() ==> name_in_prefix(acc@, (#[trigger] r@[i]).0@, r@[i].1, k as int),
            entry_counts_de_ok(cities@, r@),
            names_distinct(r@),
            forall|j: int|
                0 <= j < k && (#[trigger] acc@[j]).2 >= 1 ==> contains_name(r@, acc@[j].0@),
        decreases n - k,
    {
        let ghost r0 = r@;
        if acc[k].2 >= 1 {
            let name = acc[k].0.clone();
            let cnt = acc[k].1;
            r.push((name, cnt));
            proof {
                assert forall|i: int|
                    0 <= i < r@.len() implies name_in_prefix(
                    acc@,
                    (#[trigger] r@[i]).0@,
                    r@[i].1,
                    k + 1,
                ) by {
                    if i < r0.len() {
                        assert(r@[i] == r0[i]);
                        assert(name_in_prefix(acc@, r0[i].0@, r0[i].1, k as int));
                        let j0 = choose|j: int|
                            0 <= j < k && (#[trigger] acc@[j]).0@ == r0[i].0@ && acc@[j].1 == r0[
                            i].1 && acc@[j].2 >= 1;
                        assert(0 <= j0 < k + 1 && acc@[j0].0@ == r@[i].0@ && acc@[j0].1 == r@[i].1
                            && acc@[j0].2 >= 1);
                    } else {
                        assert(r@[i].0@ == acc@[k as int].0@ && r@[i].1 == acc@[k as int].1
                            && acc@[k as int].2 >= 1);
                    }
                }
                assert forall|i: int, j: int|
                    #![trigger r@[i], r@[j]]
                    0 <= i < j < r@.len() implies r@[i].0@ != r@[j].0@ by {
                    if j < r0.len() {
                        assert(r@[i] == r0[i] && r@[j] == r0[j]);
                    } else {
                        assert(r@[i] == r0[i]);
                        assert(r@[j].0@ == acc@[k as int].0@);
                        assert(name_in_prefix(acc@, r0[i].0@, r0[i].1, k as int));
                        let j0 = choose|jj: int|
                            0 <= jj < k && (#[trigger] acc@[jj]).0@ == r0[i].0@ && acc@[jj].1
                                == r0[i].1 && acc@[jj].2 >= 1;
                        assert(acc@[j0].0@ != acc@[k as int].0@);
                    }
                }
                assert forall|i: int|
                    0 <= i < r@.len() implies (#[trigger] r@[i]).1 == occ(cities@, r@[i].0@) && r@[
                    i].1 >= 1 && occ_de(cities@, r@[i].0@) >= 1 by {
                    if i < r0.len() {
                        assert(r@[i] == r0[i]);
                    } else {
                        assert(r@[i].0@ == acc@[k as int].0@);
                        assert(acc@[k as int].1 == occ(cities@, acc@[k as int].0@));
                        assert(acc@[k as int].2 == occ_de(cities@, acc@[k as int].0@));
                    }
                }
                assert forall|j: int|
                    0 <= j < k + 1 && (#[trigger] acc@[j]).2 >= 1 implies contains_name(
                    r@,
                    acc@[j].0@,
                ) by {
                    if j < k {
                        let i0 = choose|i: int|
                            0 <= i < r0.len() && (#[trigger] r0[i]).0@ == acc@[j].0@;
                        assert(r@[i0].0@ == acc@[j].0@);
                    } else {
                        assert(r@[r0.len() as int].0@ == acc@[j].0@);
                    }
                }
            }
        } else {
            proof {
                assert forall|i: int|
                    0 <= i < r@.len() implies name_in_prefix(
                    acc@,
                    (#[trigger] r@[i]).0@,
                    r@[i].1,
                    k + 1,
                ) by {
                    assert(r@[i] == r0[i]);
                    assert(name_in_prefix(acc@, r0[i].0@, r0[i].1, k as int));
                    let j0 = choose|j: int|
                        0 <= j < k && (#[trigger] acc@[j]).0@ == r0[i].0@ && acc@[j].1 == r0[i].1
                            && acc@[j].2 >= 1;
                    assert(0 <= j0 < k + 1 && acc@[j0].0@ == r@[i].0@ && acc@[j0].1 == r@[i].1
                        && acc@[j0].2 >= 1);
                }
                assert forall|j: int|
                    0 <= j < k + 1 && (#[trigger] acc@[j]).2 >= 1 implies contains_name(
                    r@,
                    acc@[j].0@,
                ) by {
                    assert(j != k);
                    let i0 = choose|i: int| 0 <= i < r0.len() && (#[trigger] r0[i]).0@ == acc@[j].0@;
                    assert(r@[i0].0@ == acc@[j].0@);
                }
            }
        }
        k += 1;
    }
    r
}

/// The distinct city names with how often each occurs, ranked most
/// frequent first and by ascending name among equal counts, computed with
/// a keyed counting table.
pub fn compute_most_frequent_city_by_map(cities: &Vec<(String, String)>) -> (r: Vec<
    (String, usize),
>)
    ensures
        entry_counts_ok(cities@, r@),
        names_distinct(r@),
        covers_all(cities@, r@),
        rank_sorted(r@),
{
    let acc = count_names(cities);
    let flat = project_counts(&acc);
    proof {
        assert forall|i: int, j: int|
            #![trigger flat@[i], flat@[j]]
            0 <= i < j < flat@.len() implies flat@[i].0@ != flat@[j].0@ by {
            assert(acc@[i].0@ != acc@[j].0@);
        }
        assert forall|i: int|
            0 <= i < flat@.len() implies (#[trigger] flat@[i]).1 == occ(cities@, flat@[i].0@)
            && flat@[i].1 >= 1 by {
            assert(acc@[i].1 == occ(cities@, acc@[i].0@));
        }
    }
    let ghost fv = flat@;
    let r = sort_by_rank(flat);
    proof {
        lemma_elements_transfer(
            fv,
            r@,
            |e: (String, usize)| e.1 == occ(cities@, e.0@) && e.1 >= 1,
        );
        assert forall|c: int|
            0 <= c < cities@.len() implies contains_name(r@, (#[trigger] cities@[c]).0@) by {
            let j = choose|i: int|
                0 <= i < acc@.len() && (#[trigger] acc@[i]).0@ == cities@[c].0@;
            assert(fv[j].0@ == cities@[c].0@);
            lemma_contains_transfer(fv, r@, cities@[c].0@);
        }
    }
    r
}

/// The same ranked frequency table, computed from an owned record list in
/// sorting style.
pub fn compute_most_frequent_city_by_sorting(cities: Vec<(String, String)>) -> (r: Vec<
    (String, usize),
>)
    ensures
        entry_counts_ok(cities@, r@),
        names_distinct(r@),
        covers_all(cities@, r@),
        rank_sorted(r@),
{
    compute_most_frequent_city_by_map(&cities)
}

/// The ranked frequency table restricted to names that occur at least once
/// with country code `DE`; counts still cover all occurrences.
pub fn compute_most_frequent_city_by_map_in_de(cities: &Vec<(String, String)>) -> (r: Vec<
    (String, usize),
>)
    ensures
        entry_counts_de_ok(cities@, r@),
        names_distinct(r@),
        covers_de(cities@, r@),
        rank_sorted(r@),
{
    let acc = count_names(cities);
    let flat = project_de(cities, &acc);
    let ghost fv = flat@;
    let r = sort_by_rank(flat);
    proof {
        lemma_elements_transfer(
            fv,
            r@,
            |e: (String, usize)| e.1 == occ(cities@, e.0@) && e.1 >= 1 && occ_de(cities@, e.0@)
                >= 1,
        );
        assert forall|c: int|
            0 <= c < cities@.len() && (#[trigger] cities@[c]).1@ == "DE"@ implies contains_name(
            r@,
            cities@[c].0@,
        ) by {
            let j = choose|i: int|
                0 <= i < acc@.len() && (#[trigger] acc@[i]).0@ == cities@[c].0@;
            lemma_occ_de_member(cities@, c);
            assert(acc@[j].2 == occ_de(cities@, acc@[j].0@));
            assert(acc@[j].2 >= 1);
            assert(contains_name(fv, acc@[j].0@));
            lemma_contains_transfer(fv, r@, cities@[c].0@);
        }
    }
    r
}

/// The `DE`-restricted ranked table, computed from an owned record list in
/// sorting style.
pub fn compute_most_frequent_city_by_sorting_in_de(cities: Vec<(String, String)>) -> (r: Vec<
    (String, usize),
>)
    ensures
        entry_counts_de_ok(cities@, r@),
        names_distinct(r@),
        covers_de(cities@, r@),
        rank_sorted(r@),
{
    compute_most_frequent_city_by_map_in_de(&cities)
}

} // verus!
