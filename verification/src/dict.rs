//! The dictionaries: the words that can be answers (`FINAL`) and the words
//! that are accepted as guesses (`ACCEPTABLE`).

use vstd::prelude::*;
use vstd::relations::{sorted_by, total_ordering};
use crate::text::{parse_word_list, list_entries};

verus! {

/// Lexicographic order on character sequences, character by character by code
/// point; a proper prefix comes first.
pub open spec fn lex_le(a: Seq<char>, b: Seq<char>) -> bool
    decreases a.len(),
{
    if a.len() == 0 {
        true
    } else if b.len() == 0 {
        false
    } else if a[0] != b[0] {
        (a[0] as int) < (b[0] as int)
    } else {
        lex_le(a.drop_first(), b.drop_first())
    }
}

/// `lex_le` as a relation.
pub open spec fn lex_order() -> spec_fn(Seq<char>, Seq<char>) -> bool {
    |a: Seq<char>, b: Seq<char>| lex_le(a, b)
}

proof fn lemma_lex_reflexive(a: Seq<char>)
    ensures
        lex_le(a, a),
    decreases a.len(),
{
    if a.len() > 0 {
        lemma_lex_reflexive(a.drop_first());
    }
}

proof fn lemma_lex_antisymmetric(a: Seq<char>, b: Seq<char>)
    requires
        lex_le(a, b),
        lex_le(b, a),
    ensures
        a == b,
    decreases a.len(),
{
    if a.len() > 0 && b.len() > 0 {
        lemma_lex_antisymmetric(a.drop_first(), b.drop_first());
        assert(a =~= seq![a[0]] + a.drop_first());
        assert(b =~= seq![b[0]] + b.drop_first());
    } else {
        assert(a =~= b);
    }
}

proof fn lemma_lex_transitive(a: Seq<char>, b: Seq<char>, c: Seq<char>)
    requires
        lex_le(a, b),
        lex_le(b, c),
    ensures
        lex_le(a, c),
    decreases a.len(),
{
    if a.len() > 0 && b.len() > 0 && c.len() > 0 && a[0] == b[0] && b[0] == c[0] {
        lemma_lex_transitive(a.drop_first(), b.drop_first(), c.drop_first());
    }
}

proof fn lemma_lex_total(a: Seq<char>, b: Seq<char>)
    ensures
        lex_le(a, b) || lex_le(b, a),
    decreases a.len(),
{
    if a.len() > 0 && b.len() > 0 && a[0] == b[0] {
        lemma_lex_total(a.drop_first(), b.drop_first());
    }
}

/// `lex_le` is a total order on character sequences.
pub proof fn lemma_lex_total_ordering()
    ensures
        total_ordering(lex_order()),
{
    let leq = lex_order();
    assert forall|a: Seq<char>| #[trigger] leq(a, a) by {
        lemma_lex_reflexive(a);
    }
    assert forall|a: Seq<char>, b: Seq<char>| #[trigger] leq(a, b) && #[trigger] leq(b, a) implies a == b by {
        lemma_lex_antisymmetric(a, b);
    }
    assert forall|a: Seq<char>, b: Seq<char>, c: Seq<char>|
        #[trigger] leq(a, b) && #[trigger] leq(b, c) implies #[trigger] leq(a, c) by {
        lemma_lex_transitive(a, b, c);
    }
    assert forall|a: Seq<char>, b: Seq<char>| #[trigger] leq(a, b) || #[trigger] leq(b, a) by {
        lemma_lex_total(a, b);
    }
}

/// Sorts strings in ascending order (`slice::sort` on `String`, whose order
/// compares code points from the first one on, a prefix first). Claimed: the
/// result holds the same strings and is ordered by `lex_le`.
#[verifier::external_body]
fn sort_strings(v: &mut Vec<String>)
    ensures
        final(v).len() == old(v).len(),
        final(v).deep_view().to_multiset() == old(v).deep_view().to_multiset(),
        sorted_by(final(v).deep_view(), lex_order()),
{
    v.sort();
}

/// No two neighbouring entries are equal.
pub open spec fn adjacent_distinct(s: Seq<Seq<char>>) -> bool {
    forall|i: int| 0 <= i < s.len() - 1 ==> #[trigger] s[i] != s[i + 1]
}

/// `words` can be found, in order, among `acc[start..]`.
pub open spec fn embeds(words: Seq<Seq<char>>, acc: Seq<Seq<char>>, start: nat) -> bool
    decreases words.len(), acc.len() - start,
{
    if words.len() == 0 {
        true
    } else if start >= acc.len() {
        false
    } else if acc[start as int] == words[0] {
        embeds(words.drop_first(), acc, start + 1)
    } else {
        embeds(words, acc, start + 1)
    }
}

proof fn lemma_embeds_skip(words: Seq<Seq<char>>, acc: Seq<Seq<char>>, p: nat, q: nat)
    requires
        words.len() > 0,
        p <= q < acc.len(),
        acc[q as int] == words[0],
        forall|j: int| p <= j < q ==> acc[j] != words[0],
    ensures
        embeds(words, acc, p) == embeds(words.drop_first(), acc, q + 1),
    decreases q - p,
{
    if p < q {
        lemma_embeds_skip(words, acc, p + 1, q);
    }
}

proof fn lemma_embeds_missing(words: Seq<Seq<char>>, acc: Seq<Seq<char>>, p: nat)
    requires
        words.len() > 0,
        forall|j: int| p <= j < acc.len() ==> acc[j] != words[0],
    ensures
        !embeds(words, acc, p),
    decreases acc.len() - p,
{
    if p < acc.len() {
        lemma_embeds_missing(words, acc, p + 1);
    }
}

/// Reads a word list from `text` (see `list_entries`) and sorts it; tells
/// whether its entries are distinct and can be found, in order, in
/// `acceptable` from position `*now` on, `*now` following the search.
fn load_checked(text: &str, now: &mut usize, acceptable: &Vec<String>) -> (r: (Vec<String>, bool))
    ensures
        r.0.deep_view() == list_entries(text@).sort_by(lex_order()),
        r.1 == (adjacent_distinct(r.0.deep_view()) && embeds(
            r.0.deep_view(),
            acceptable.deep_view(),
            *old(now) as nat,
        )),
        r.1 ==> *final(now) < acceptable.len() && acceptable@[*final(now) as int]@ == r.0.deep_view().last(),
        *old(now) <= *final(now),
        r.1 ==> *final(now) as nat == search_end(acceptable.deep_view(), r.0.deep_view(), *old(now) as nat),
        r.1 ==> forall|j: int|
            0 <= j < r.0.deep_view().len() ==> #[trigger] searches(
                acceptable.deep_view(),
                r.0.deep_view(),
                *old(now) as nat,
            )[j],
        !r.1 ==> *final(now) == if adjacent_distinct(r.0.deep_view()) && *old(now) < acceptable.len() {
            acceptable.len()
        } else {
            *old(now)
        },
{
    let mut words = parse_word_list(text);
    sort_strings(&mut words);
    let ghost f = words.deep_view();
    let ghost acc = acceptable.deep_view();
    let ghost now0 = *now as nat;
    proof {
        lemma_lex_total_ordering();
        list_entries(text@).lemma_sort_by_ensures(lex_order());
        vstd::seq_lib::lemma_sorted_unique(f, list_entries(text@).sort_by(lex_order()), lex_order());
    }
    let n = words.len();
    for i in 0..n - 1
        invariant
            n == words.len() >= 1,
            f == words.deep_view(),
            f == list_entries(text@).sort_by(lex_order()),
            forall|j: int| 0 <= j < i ==> #[trigger] f[j] != f[j + 1],
    {
        if words[i] == words[i + 1] {
            assert(f[i as int] == f[i + 1]);
            return (words, false);
        }
    }
    assert(f.skip(0) =~= f);
    for k in 0..n
        invariant
            n == words.len() >= 1,
            f == words.deep_view(),
            f == list_entries(text@).sort_by(lex_order()),
            acc.len() == acceptable@.len(),
            acc == acceptable.deep_view(),
            now0 == *old(now) as nat,
            adjacent_distinct(f),
            embeds(f, acc, now0) == embeds(f.skip(k as int), acc, *now as nat),
            k > 0 ==> *now < acceptable.len() && acc[*now as int] == f[k - 1],
            now0 <= *now,
            k == 0 ==> *now == now0,
            searches(acc, f, now0) == Seq::new(k as nat, |i: int| true) + searches(
                acc,
                f.skip(k as int),
                *now as nat,
            ),
            search_end(acc, f, now0) == search_end(acc, f.skip(k as int), *now as nat),
    {
        let ghost p = *now;
        let found = Dict::check(&words[k], now, acceptable);
        proof {
            let w = f.skip(k as int);
            assert(w[0] == f[k as int]);
            assert(w.drop_first() =~= f.skip(k + 1));
            if found {
                assert(Seq::new(k as nat, |i: int| true) + (seq![true] + searches(acc, f.skip(k + 1), *now as nat))
                    =~= Seq::new((k + 1) as nat, |i: int| true) + searches(acc, f.skip(k + 1), *now as nat));
            }
            if found {
                let q = *now;
                assert forall|j: int| p <= j < q implies acc[j] != w[0] by {
                    assert(acceptable@[j]@ != words@[k as int]@);
                }
                lemma_embeds_skip(w, acc, p as nat, q as nat);
                assert(w.drop_first() =~= f.skip(k + 1));
                if k + 1 < n {
                    assert(f[k as int] != f[k + 1]);
                    assert(f.skip(k + 1)[0] == f[k + 1]);
                }
            } else {
                assert forall|j: int| p <= j < acc.len() implies acc[j] != w[0] by {
                    assert(acceptable@[j]@ != words@[k as int]@);
                }
                lemma_embeds_missing(w, acc, p as nat);
            }
        }
        if !found {
            return (words, false);
        }
    }
    proof {
        assert(f.skip(n as int).len() == 0);
        assert(searches(acc, f, now0) =~= Seq::new(n as nat, |i: int| true));
    }
    (words, true)
}

/// Every word that `embeds` finds is in `acc`, at or after `start`.
pub proof fn lemma_embedded_words_found(words: Seq<Seq<char>>, acc: Seq<Seq<char>>, start: nat)
    requires
        embeds(words, acc, start),
    ensures
        forall|i: int|
            0 <= i < words.len() ==> exists|j: int| start <= j < acc.len() && acc[j] == #[trigger] words[i],
    decreases words.len(), acc.len() - start,
{
    if words.len() > 0 && start < acc.len() {
        if acc[start as int] == words[0] {
            lemma_embedded_words_found(words.drop_first(), acc, start + 1);
            assert forall|i: int| 0 <= i < words.len() implies exists|j: int|
                start <= j < acc.len() && acc[j] == #[trigger] words[i] by {
                if i == 0 {
                    assert(acc[start as int] == words[0]);
                } else {
                    assert(words.drop_first()[i - 1] == words[i]);
                }
            }
        } else {
            lemma_embedded_words_found(words, acc, start + 1);
        }
    }
}

/// The result of searching `acc` for `w` from position `p` on: whether it
/// was found, and where the search stopped (at the word, or at the end of
/// `acc`; a search that starts past the end stays where it started).
pub open spec fn search(acc: Seq<Seq<char>>, w: Seq<char>, p: nat) -> (bool, nat)
    decreases acc.len() - p,
{
    if p >= acc.len() {
        (false, p)
    } else if acc[p as int] == w {
        (true, p)
    } else {
        search(acc, w, p + 1)
    }
}

/// The results of searching `acc` for each word of `ws` in turn, every
/// search starting where the previous one stopped, the first at `p`.
pub open spec fn searches(acc: Seq<Seq<char>>, ws: Seq<Seq<char>>, p: nat) -> Seq<bool>
    decreases ws.len(),
{
    if ws.len() == 0 {
        Seq::empty()
    } else {
        let r = search(acc, ws[0], p);
        seq![r.0] + searches(acc, ws.drop_first(), r.1)
    }
}

/// Where the search stops after searching `acc` for each word of `ws` in
/// turn, starting at `p` (see `searches`).
pub open spec fn search_end(acc: Seq<Seq<char>>, ws: Seq<Seq<char>>, p: nat) -> nat
    decreases ws.len(),
{
    if ws.len() == 0 {
        p
    } else {
        search_end(acc, ws.drop_first(), search(acc, ws[0], p).1)
    }
}

/// `a` comes strictly before `b` in `lex_le` order.
pub open spec fn lex_lt(a: Seq<char>, b: Seq<char>) -> bool {
    lex_le(a, b) && a != b
}

/// Every entry comes strictly before every later one.
pub open spec fn strictly_sorted(s: Seq<Seq<char>>) -> bool {
    forall|i: int, j: int| 0 <= i < j < s.len() ==> lex_lt(#[trigger] s[i], #[trigger] s[j])
}

proof fn lemma_lex_lt_transitive(a: Seq<char>, b: Seq<char>, c: Seq<char>)
    requires
        lex_lt(a, b),
        lex_lt(b, c),
    ensures
        lex_lt(a, c),
{
    lemma_lex_transitive(a, b, c);
    if a == c {
        lemma_lex_antisymmetric(b, c);
    }
}

proof fn lemma_search_missing(acc: Seq<Seq<char>>, w: Seq<char>, p: nat)
    requires
        p <= acc.len(),
        forall|i: int| p <= i < acc.len() ==> acc[i] != w,
    ensures
        search(acc, w, p) == (false, acc.len()),
    decreases acc.len() - p,
{
    if p < acc.len() {
        lemma_search_missing(acc, w, p + 1);
    }
}

proof fn lemma_search_sorted(acc: Seq<Seq<char>>, w: Seq<char>, p: nat)
    requires
        strictly_sorted(acc),
        p <= acc.len(),
        forall|i: int| 0 <= i < p ==> lex_lt(#[trigger] acc[i], w),
    ensures
        search(acc, w, p).0 <==> acc.contains(w),
        search(acc, w, p).0 ==> search(acc, w, p).1 < acc.len() && acc[search(acc, w, p).1 as int] == w,
        !search(acc, w, p).0 ==> search(acc, w, p).1 == acc.len(),
    decreases acc.len() - p,
{
    if p < acc.len() {
        if acc[p as int] == w {
        } else {
            lemma_lex_total(acc[p as int], w);
            if lex_le(acc[p as int], w) {
                lemma_search_sorted(acc, w, p + 1);
            } else {
                assert forall|i: int| p <= i < acc.len() implies acc[i] != w by {
                    if i > p {
                        assert(lex_lt(acc[p as int], acc[i]));
                        if acc[i] == w {
                            lemma_lex_antisymmetric(acc[p as int], w);
                        }
                    }
                }
                assert forall|i: int| 0 <= i < acc.len() implies acc[i] != w by {
                    if i < p {
                        assert(lex_lt(acc[i], w));
                    }
                }
                lemma_search_missing(acc, w, p);
            }
        }
    } else {
        assert forall|i: int| 0 <= i < acc.len() implies acc[i] != w by {
            assert(lex_lt(acc[i], w));
        }
    }
}

proof fn lemma_search_end_from_end(acc: Seq<Seq<char>>, ws: Seq<Seq<char>>)
    ensures
        search_end(acc, ws, acc.len()) == acc.len(),
    decreases ws.len(),
{
    if ws.len() > 0 {
        lemma_search_end_from_end(acc, ws.drop_first());
    }
}

proof fn lemma_search_end_push(acc: Seq<Seq<char>>, ws: Seq<Seq<char>>, w: Seq<char>, p: nat)
    ensures
        search_end(acc, ws.push(w), p) == search(acc, w, search_end(acc, ws, p)).1,
    decreases ws.len(),
{
    if ws.len() > 0 {
        assert(ws.push(w).drop_first() =~= ws.drop_first().push(w));
        assert(ws.push(w)[0] == ws[0]);
        lemma_search_end_push(acc, ws.drop_first(), w, search(acc, ws[0], p).1);
    } else {
        assert(ws.push(w).drop_first() =~= Seq::<Seq<char>>::empty());
        assert(ws.push(w)[0] == w);
        assert(search_end(acc, Seq::<Seq<char>>::empty(), search(acc, w, p).1) == search(acc, w, p).1);
    }
}

proof fn lemma_search_states(
    acc: Seq<Seq<char>>,
    ws: Seq<Seq<char>>,
    nows: Seq<nat>,
    found: Seq<bool>,
    k: int,
)
    requires
        nows.len() == ws.len() + 1,
        found.len() == ws.len(),
        forall|j: int| 0 <= j < ws.len() ==> (#[trigger] found[j], nows[j + 1]) == search(acc, ws[j], nows[j]),
        0 <= k <= ws.len(),
    ensures
        searches(acc, ws, nows[0]) == found.take(k) + searches(acc, ws.skip(k), nows[k]),
        nows[k] == search_end(acc, ws.take(k), nows[0]),
    decreases k,
{
    if k == 0 {
        assert(ws.skip(0) =~= ws);
        assert(found.take(0) + searches(acc, ws, nows[0]) =~= searches(acc, ws, nows[0]));
        assert(ws.take(0) =~= Seq::<Seq<char>>::empty());
    } else {
        lemma_search_states(acc, ws, nows, found, k - 1);
        let t = ws.skip(k - 1);
        assert(t[0] == ws[k - 1]);
        assert(t.drop_first() =~= ws.skip(k));
        assert(found[k - 1] == search(acc, ws[k - 1], nows[k - 1]).0);
        assert(found.take(k - 1) + (seq![found[k - 1]] + searches(acc, ws.skip(k), nows[k])) =~= found.take(k)
            + searches(acc, ws.skip(k), nows[k]));
        assert(ws.take(k) =~= ws.take(k - 1).push(ws[k - 1]));
        lemma_search_end_push(acc, ws.take(k - 1), ws[k - 1], nows[0]);
    }
}

/// Successive searches with `Dict::check`: `found[j]` and `nows[j + 1]` are
/// what the search for `ws[j]` from `nows[j]` gives, starting from position 0.
/// Over a strictly sorted list and strictly sorted words, search `j`
/// succeeds exactly when the words `0..=j` are all in the list; every search
/// from the first missing word on fails and leaves the position at the end
/// of the list; and all succeed exactly when every word is in the list.
pub proof fn lemma_check_sequence(acc: Seq<Seq<char>>, ws: Seq<Seq<char>>, nows: Seq<nat>, found: Seq<bool>)
    requires
        strictly_sorted(acc),
        strictly_sorted(ws),
        nows.len() == ws.len() + 1,
        found.len() == ws.len(),
        nows[0] == 0,
        forall|j: int| 0 <= j < ws.len() ==> (#[trigger] found[j], nows[j + 1]) == search(acc, ws[j], nows[j]),
    ensures
        forall|j: int|
            0 <= j < ws.len() ==> (#[trigger] found[j] <==> forall|i: int| 0 <= i <= j ==> acc.contains(#[trigger] ws[i])),
        forall|j: int| 0 <= j < ws.len() && !#[trigger] found[j] ==> nows[j + 1] == acc.len(),
        (forall|j: int| 0 <= j < ws.len() ==> #[trigger] found[j]) <==> (forall|i: int|
            0 <= i < ws.len() ==> acc.contains(#[trigger] ws[i])),
{
    lemma_searches_sorted_from(acc, ws, 0);
    lemma_search_states(acc, ws, nows, found, ws.len() as int);
    assert(ws.skip(ws.len() as int) =~= Seq::<Seq<char>>::empty());
    assert(found.take(ws.len() as int) =~= found);
    assert(searches(acc, ws, 0) =~= found);
    assert forall|j: int| 0 <= j < ws.len() && !#[trigger] found[j] implies nows[j + 1] == acc.len() by {
        lemma_search_states(acc, ws, nows, found, j + 1);
    }
    if forall|i: int| 0 <= i < ws.len() ==> acc.contains(#[trigger] ws[i]) {
        assert forall|j: int| 0 <= j < ws.len() implies #[trigger] found[j] by {
            assert(forall|i: int| 0 <= i <= j ==> acc.contains(#[trigger] ws[i]));
        }
    }
    if forall|j: int| 0 <= j < ws.len() ==> #[trigger] found[j] {
        assert forall|i: int| 0 <= i < ws.len() implies acc.contains(#[trigger] ws[i]) by {
            assert(found[i]);
        }
    }
}

proof fn lemma_searches_from_end(acc: Seq<Seq<char>>, ws: Seq<Seq<char>>)
    ensures
        searches(acc, ws, acc.len()).len() == ws.len(),
        forall|j: int| 0 <= j < ws.len() ==> !#[trigger] searches(acc, ws, acc.len())[j],
    decreases ws.len(),
{
    if ws.len() > 0 {
        lemma_searches_from_end(acc, ws.drop_first());
        let r = searches(acc, ws, acc.len());
        assert forall|j: int| 0 <= j < ws.len() implies !#[trigger] r[j] by {
            if j > 0 {
                assert(r[j] == searches(acc, ws.drop_first(), acc.len())[j - 1]);
            }
        }
    }
}

proof fn lemma_searches_sorted_from(acc: Seq<Seq<char>>, ws: Seq<Seq<char>>, p: nat)
    requires
        strictly_sorted(acc),
        strictly_sorted(ws),
        p <= acc.len(),
        ws.len() > 0 ==> forall|i: int| 0 <= i < p ==> lex_lt(#[trigger] acc[i], ws[0]),
    ensures
        searches(acc, ws, p).len() == ws.len(),
        forall|j: int|
            0 <= j < ws.len() ==> (#[trigger] searches(acc, ws, p)[j] <==> forall|i: int|
                0 <= i <= j ==> acc.contains(#[trigger] ws[i])),
        forall|j: int|
            0 <= j < ws.len() && !#[trigger] searches(acc, ws, p)[j] ==> search_end(acc, ws.take(j + 1), p)
                == acc.len(),
    decreases ws.len(),
{
    if ws.len() > 0 {
        let r = search(acc, ws[0], p);
        let rest = ws.drop_first();
        lemma_search_sorted(acc, ws[0], p);
        let all = searches(acc, ws, p);
        if r.0 {
            let q = r.1;
            if rest.len() > 0 {
                assert(lex_lt(ws[0], ws[1]));
                assert forall|i: int| 0 <= i < q implies lex_lt(#[trigger] acc[i], rest[0]) by {
                    assert(lex_lt(acc[i], acc[q as int]));
                    lemma_lex_lt_transitive(acc[i], ws[0], ws[1]);
                }
            }
            assert(strictly_sorted(rest)) by {
                assert forall|i: int, j: int| 0 <= i < j < rest.len() implies lex_lt(
                    #[trigger] rest[i],
                    #[trigger] rest[j],
                ) by {
                    assert(lex_lt(ws[i + 1], ws[j + 1]));
                }
            }
            lemma_searches_sorted_from(acc, rest, q);
            assert forall|j: int| 0 <= j < ws.len() && !#[trigger] all[j] implies search_end(acc, ws.take(j + 1), p)
                == acc.len() by {
                assert(j > 0);
                assert(all[j] == searches(acc, rest, q)[j - 1]);
                assert(ws.take(j + 1).drop_first() =~= rest.take(j));
                assert(ws.take(j + 1)[0] == ws[0]);
            }
            assert forall|j: int| 0 <= j < ws.len() implies (#[trigger] all[j] <==> forall|i: int|
                0 <= i <= j ==> acc.contains(#[trigger] ws[i])) by {
                if j > 0 {
                    assert(all[j] == searches(acc, rest, q)[j - 1]);
                    if all[j] {
                        assert forall|i: int| 0 <= i <= j implies acc.contains(#[trigger] ws[i]) by {
                            if i > 0 {
                                assert(rest[i - 1] == ws[i]);
                            }
                        }
                    } else {
                        let i = choose|i: int| 0 <= i <= j - 1 && !acc.contains(#[trigger] rest[i]);
                        assert(rest[i] == ws[i + 1]);
                    }
                }
            }
        } else {
            lemma_searches_from_end(acc, rest);
            assert forall|j: int| 0 <= j < ws.len() && !#[trigger] all[j] implies search_end(acc, ws.take(j + 1), p)
                == acc.len() by {
                assert(ws.take(j + 1).drop_first() =~= rest.take(j));
                assert(ws.take(j + 1)[0] == ws[0]);
                lemma_search_end_from_end(acc, rest.take(j));
            }
            assert forall|j: int| 0 <= j < ws.len() implies (#[trigger] all[j] <==> forall|i: int|
                0 <= i <= j ==> acc.contains(#[trigger] ws[i])) by {
                if j > 0 {
                    assert(all[j] == searches(acc, rest, acc.len())[j - 1]);
                }
                assert(!acc.contains(ws[0]));
            }
        }
    }
}

/// Searching a strictly sorted list for the words of a strictly sorted list
/// in turn, from the start, each search going on where the previous stopped:
/// the `j`-th search succeeds exactly when the words `0..=j` are all in the
/// list; after the first missing word every search fails.
pub proof fn lemma_sorted_searches(acc: Seq<Seq<char>>, ws: Seq<Seq<char>>)
    requires
        strictly_sorted(acc),
        strictly_sorted(ws),
    ensures
        searches(acc, ws, 0).len() == ws.len(),
        forall|j: int|
            0 <= j < ws.len() ==> (#[trigger] searches(acc, ws, 0)[j] <==> forall|i: int|
                0 <= i <= j ==> acc.contains(#[trigger] ws[i])),
{
    lemma_searches_sorted_from(acc, ws, 0);
}

/// The word lists of a game.
#[allow(non_snake_case)]
pub struct Dict {
    pub is_final: bool,
    pub is_acceptable: bool,
    pub FINAL: Vec<String>,
    pub ACCEPTABLE: Vec<String>,
    pub now_final: usize,
    pub now_acceptable: usize,
}

#[allow(non_snake_case)]
impl Dict {
    /// Looks for `st` in `acceptable` from position `*now` on. When found,
    /// `*now` is left at its first occurrence there; otherwise `*now` runs to
    /// the end of the list.
    pub fn check(st: &String, now: &mut usize, acceptable: &Vec<String>) -> (found: bool)
        ensures
            found == exists|j: int| *old(now) <= j < acceptable@.len() && #[trigger] acceptable@[j]@ == st@,
            found ==> *old(now) <= *final(now) < acceptable.len() && acceptable@[*final(now) as int]@ == st@,
            found ==> forall|j: int| *old(now) <= j < *final(now) ==> #[trigger] acceptable@[j]@ != st@,
            !found ==> *final(now) == if *old(now) < acceptable.len() {
                acceptable.len()
            } else {
                *old(now)
            },
            (found, *final(now) as nat) == search(acceptable.deep_view(), st@, *old(now) as nat),
    {
        let ghost start = *now;
        let ghost acc = acceptable.deep_view();
        while *now < acceptable.len()
            invariant
                acc == acceptable.deep_view(),
                search(acc, st@, start as nat) == search(acc, st@, *now as nat),
                start == *old(now),
                start <= *now,
                *now <= acceptable.len() || *now == start,
                forall|j: int| start <= j < *now ==> #[trigger] acceptable@[j]@ != st@,
            decreases acceptable.len() - *now,
        {
            let index: usize = *now;
            if acceptable[index] == *st {
                return true;
            }
            *now += 1;
        }
        false
    }

    /// Adds the built-in lists to the dictionary and restarts both searches.
    pub fn init(&mut self, builtin_final: &Vec<String>, builtin_acceptable: &Vec<String>)
        ensures
            final(self).FINAL@ == old(self).FINAL@ + builtin_final@,
            final(self).ACCEPTABLE@ == old(self).ACCEPTABLE@ + builtin_acceptable@,
            final(self).now_final == 0,
            final(self).now_acceptable == 0,
            final(self).is_final == old(self).is_final,
            final(self).is_acceptable == old(self).is_acceptable,
    {
        let ghost f0 = self.FINAL@;
        let ghost a0 = self.ACCEPTABLE@;
        for i in 0..builtin_final.len()
            invariant
                self.FINAL@ == f0 + builtin_final@.take(i as int),
                self.ACCEPTABLE@ == a0,
                self.is_final == old(self).is_final,
                self.is_acceptable == old(self).is_acceptable,
        {
            self.FINAL.push(builtin_final[i].clone());
            assert(builtin_final@.take(i + 1) =~= builtin_final@.take(i as int).push(builtin_final@[i as int]));
        }
        for i in 0..builtin_acceptable.len()
            invariant
                self.FINAL@ == f0 + builtin_final@,
                self.ACCEPTABLE@ == a0 + builtin_acceptable@.take(i as int),
                self.is_final == old(self).is_final,
                self.is_acceptable == old(self).is_acceptable,
        {
            self.ACCEPTABLE.push(builtin_acceptable[i].clone());
            assert(builtin_acceptable@.take(i + 1) =~= builtin_acceptable@.take(i as int).push(
                builtin_acceptable@[i as int],
            ));
        }
        assert(builtin_final@.take(builtin_final@.len() as int) =~= builtin_final@);
        assert(builtin_acceptable@.take(builtin_acceptable@.len() as int) =~= builtin_acceptable@);
        self.now_final = 0;
        self.now_acceptable = 0;
    }

    /// Replaces the answer list by the list read from `text` (one word per
    /// line, trimmed and in lowercase, then sorted). Returns whether its words
    /// are distinct and all found, in order, in `builtin_acceptable` from
    /// `now_final` on.
    pub fn update_final(&mut self, text: &str, builtin_acceptable: &Vec<String>) -> (ok: bool)
        ensures
            final(self).is_final,
            final(self).FINAL.deep_view() == list_entries(text@).sort_by(lex_order()),
            ok == (adjacent_distinct(final(self).FINAL.deep_view()) && embeds(
                final(self).FINAL.deep_view(),
                builtin_acceptable.deep_view(),
                old(self).now_final as nat,
            )),
            ok ==> final(self).now_final < builtin_acceptable.len()
                && builtin_acceptable@[final(self).now_final as int]@ == final(self).FINAL.deep_view().last(),
            old(self).now_final <= final(self).now_final,
            ok ==> final(self).now_final as nat == search_end(
                builtin_acceptable.deep_view(),
                final(self).FINAL.deep_view(),
                old(self).now_final as nat,
            ),
            ok ==> forall|j: int|
                0 <= j < final(self).FINAL.deep_view().len() ==> #[trigger] searches(
                    builtin_acceptable.deep_view(),
                    final(self).FINAL.deep_view(),
                    old(self).now_final as nat,
                )[j],
            !ok ==> final(self).now_final == if adjacent_distinct(final(self).FINAL.deep_view())
                && old(self).now_final < builtin_acceptable.len() {
                builtin_acceptable.len()
            } else {
                old(self).now_final
            },
            final(self).ACCEPTABLE == old(self).ACCEPTABLE,
            final(self).is_acceptable == old(self).is_acceptable,
            final(self).now_acceptable == old(self).now_acceptable,
    {
        self.FINAL = Vec::new();
        self.is_final = true;
        let (words, ok) = load_checked(text, &mut self.now_final, builtin_acceptable);
        self.FINAL = words;
        ok
    }

    /// Replaces the guess list by the list read from `text`, as
    /// `update_final` does for the answer list.
    pub fn update_acceptable(&mut self, text: &str, builtin_acceptable: &Vec<String>) -> (ok: bool)
        ensures
            final(self).is_acceptable,
            final(self).ACCEPTABLE.deep_view() == list_entries(text@).sort_by(lex_order()),
            ok == (adjacent_distinct(final(self).ACCEPTABLE.deep_view()) && embeds(
                final(self).ACCEPTABLE.deep_view(),
                builtin_acceptable.deep_view(),
                old(self).now_acceptable as nat,
            )),
            ok ==> final(self).now_acceptable < builtin_acceptable.len()
                && builtin_acceptable@[final(self).now_acceptable as int]@
                == final(self).ACCEPTABLE.deep_view().last(),
            old(self).now_acceptable <= final(self).now_acceptable,
            ok ==> final(self).now_acceptable as nat == search_end(
                builtin_acceptable.deep_view(),
                final(self).ACCEPTABLE.deep_view(),
                old(self).now_acceptable as nat,
            ),
            ok ==> forall|j: int|
                0 <= j < final(self).ACCEPTABLE.deep_view().len() ==> #[trigger] searches(
                    builtin_acceptable.deep_view(),
                    final(self).ACCEPTABLE.deep_view(),
                    old(self).now_acceptable as nat,
                )[j],
            !ok ==> final(self).now_acceptable == if adjacent_distinct(final(self).ACCEPTABLE.deep_view())
                && old(self).now_acceptable < builtin_acceptable.len() {
                builtin_acceptable.len()
            } else {
                old(self).now_acceptable
            },
            final(self).FINAL == old(self).FINAL,
            final(self).is_final == old(self).is_final,
            final(self).now_final == old(self).now_final,
    {
        self.ACCEPTABLE = Vec::new();
        self.is_acceptable = true;
        let (words, ok) = load_checked(text, &mut self.now_acceptable, builtin_acceptable);
        self.ACCEPTABLE = words;
        ok
    }

    pub fn get_FINAL(&self) -> (r: &[String])
        ensures
            r@ == self.FINAL@,
    {
        self.FINAL.as_slice()
    }

    pub fn get_ACCEPTABLE(&self) -> (r: &[String])
        ensures
            r@ == self.ACCEPTABLE@,
    {
        self.ACCEPTABLE.as_slice()
    }

    pub fn get_FINAL_len(&self) -> (n: usize)
        ensures
            n == self.FINAL.len(),
    {
        self.FINAL.len()
    }

    pub fn get_ACCEPTABLE_len(&self) -> (n: usize)
        ensures
            n == self.ACCEPTABLE.len(),
    {
        self.ACCEPTABLE.len()
    }
}

} // verus!
