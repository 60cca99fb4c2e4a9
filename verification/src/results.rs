//! The result processor: deduplication by `(ip, port)`, the two output
//! orderings, and the country-distribution summary.

use vstd::prelude::*;

verus! {

use vstd::relations::sorted_by;

use crate::candidate::ProxyRecord;
use crate::text::{lemma_lex_le_total, lemma_lex_le_trans, lex_le, str_eq, str_le};

// ---------------------------------------------------------------------------
// Deduplication: first seen wins.
// ---------------------------------------------------------------------------

/// Two records collide when they share address and port.
pub open spec fn same_key(a: ProxyRecord, b: ProxyRecord) -> bool {
    a.ip@ == b.ip@ && a.port == b.port
}

/// Whether some record of `s` collides with `x`.
pub open spec fn key_in(s: Seq<ProxyRecord>, x: ProxyRecord) -> bool {
    exists|k: int| 0 <= k < s.len() && same_key(s[k], x)
}

/// The first record for each `(ip, port)` key, in arrival order.
pub open spec fn dedup_spec(s: Seq<ProxyRecord>) -> Seq<ProxyRecord>
    decreases s.len(),
{
    if s.len() == 0 {
        Seq::empty()
    } else {
        let rest = dedup_spec(s.drop_last());
        if key_in(s.drop_last(), s.last()) {
            rest
        } else {
            rest.push(s.last())
        }
    }
}

proof fn lemma_key_in_push(t: Seq<ProxyRecord>, y: ProxyRecord, x: ProxyRecord)
    ensures
        key_in(t.push(y), x) == (key_in(t, x) || same_key(y, x)),
{
    if key_in(t, x) {
        let k = choose|k: int| 0 <= k < t.len() && same_key(t[k], x);
        assert(t.push(y)[k] == t[k]);
        assert(key_in(t.push(y), x));
    }
    if same_key(y, x) {
        assert(t.push(y)[t.len() as int] == y);
        assert(key_in(t.push(y), x));
    }
    if key_in(t.push(y), x) {
        let k = choose|k: int| 0 <= k < t.push(y).len() && same_key(t.push(y)[k], x);
        if k < t.len() {
            assert(t[k] == t.push(y)[k]);
            assert(key_in(t, x));
        } else {
            assert(t.push(y)[k] == y);
        }
    }
}

/// Deduplication keeps exactly the keys of its input.
pub proof fn lemma_dedup_keys(s: Seq<ProxyRecord>)
    ensures
        forall|x: ProxyRecord| key_in(dedup_spec(s), x) == key_in(s, x),
    decreases s.len(),
{
    if s.len() != 0 {
        let d = s.drop_last();
        lemma_dedup_keys(d);
        assert(s =~= d.push(s.last()));
        assert forall|x: ProxyRecord| key_in(dedup_spec(s), x) == key_in(s, x) by {
            lemma_key_in_push(d, s.last(), x);
            if key_in(d, s.last()) {
                if same_key(s.last(), x) {
                    let k = choose|k: int| 0 <= k < d.len() && same_key(d[k], s.last());
                    assert(same_key(d[k], x));
                    assert(key_in(d, x));
                }
            } else {
                lemma_key_in_push(dedup_spec(d), s.last(), x);
            }
        }
    }
}

/// No two deduplicated records share a key.
pub proof fn lemma_dedup_unique(s: Seq<ProxyRecord>)
    ensures
        forall|i: int, j: int|
            0 <= i < j < dedup_spec(s).len() ==> !same_key(dedup_spec(s)[i], dedup_spec(s)[j]),
    decreases s.len(),
{
    if s.len() != 0 {
        let d = s.drop_last();
        lemma_dedup_unique(d);
        lemma_dedup_keys(d);
        let r = dedup_spec(s);
        if !key_in(d, s.last()) {
            let prev = dedup_spec(d);
            assert forall|i: int, j: int| 0 <= i < j < r.len() implies !same_key(r[i], r[j]) by {
                if j < prev.len() {
                    assert(r[i] == prev[i] && r[j] == prev[j]);
                } else {
                    assert(r[j] == s.last());
                    assert(r[i] == prev[i]);
                    if same_key(prev[i], s.last()) {
                        assert(key_in(prev, s.last()));
                    }
                }
            }
        }
    }
}

/// Keeps the first record for each `(ip, port)` key, in arrival order; the
/// result has pairwise distinct keys.
pub fn remove_duplicates(proxies: Vec<ProxyRecord>) -> (r: Vec<ProxyRecord>)
    ensures
        r@ == dedup_spec(proxies@),
        forall|i: int, j: int| 0 <= i < j < r@.len() ==> !same_key(r@[i], r@[j]),
{
    let ghost orig = proxies@;
    let mut rest = proxies;
    let mut out: Vec<ProxyRecord> = Vec::new();
    proof {
        assert(orig.take(0) =~= Seq::<ProxyRecord>::empty());
        assert(rest@ =~= orig.skip(0));
    }
    while rest.len() > 0
        invariant
            rest@.len() <= orig.len(),
            rest@ == orig.skip(orig.len() - rest@.len()),
            out@ == dedup_spec(orig.take(orig.len() - rest@.len())),
        decreases rest@.len(),
    {
        let ghost i = orig.len() - rest@.len();
        let x = rest.remove(0);
        proof {
            assert(x == orig[i as int]);
            assert(rest@ =~= orig.skip(i + 1));
        }
        let mut seen = false;
        let mut j: usize = 0;
        while j < out.len()
            invariant
                0 <= j <= out@.len(),
                seen == key_in(out@.take(j as int), x),
            decreases out@.len() - j,
        {
            let hit = if str_eq(out[j].ip.as_str(), x.ip.as_str()) {
                out[j].port == x.port
            } else {
                false
            };
            j += 1;
            proof {
                assert(out@.take(j as int) =~= out@.take(j - 1).push(out@[j - 1]));
                lemma_key_in_push(out@.take(j - 1), out@[j - 1], x);
            }
            if hit {
                seen = true;
            }
        }
        proof {
            assert(out@.take(out@.len() as int) =~= out@);
            lemma_dedup_keys(orig.take(i as int));
            assert(seen == key_in(orig.take(i as int), x));
            assert(orig.take(i + 1).drop_last() =~= orig.take(i as int));
            assert(orig.take(i + 1).last() == orig[i as int]);
        }
        if !seen {
            out.push(x);
        }
        proof {
            assert(out@ == dedup_spec(orig.take(i + 1)));
        }
    }
    proof {
        assert(orig.take(orig.len() as int) =~= orig);
        lemma_dedup_unique(orig);
    }
    out
}

// ---------------------------------------------------------------------------
// Stable insertion sort, at the specification level: a new element goes
// before the first strictly greater element, so equal elements keep their
// arrival order.
// ---------------------------------------------------------------------------

/// `x` inserted before the first element of `s` that is strictly greater.
pub open spec fn insert_by<T>(s: Seq<T>, x: T, leq: spec_fn(T, T) -> bool) -> Seq<T>
    decreases s.len(),
{
    if s.len() == 0 {
        seq![x]
    } else if !leq(s[0], x) {
        seq![x] + s
    } else {
        seq![s[0]] + insert_by(s.drop_first(), x, leq)
    }
}

/// The stable sort of `s` under `leq`: each element inserted in turn.
pub open spec fn insertion_sort_by<T>(s: Seq<T>, leq: spec_fn(T, T) -> bool) -> Seq<T>
    decreases s.len(),
{
    if s.len() == 0 {
        Seq::empty()
    } else {
        insert_by(insertion_sort_by(s.drop_last(), leq), s.last(), leq)
    }
}

/// Inserting at the first position whose element is strictly greater is
/// what `insert_by` denotes.
pub proof fn lemma_insert_by_at<T>(s: Seq<T>, x: T, leq: spec_fn(T, T) -> bool, p: int)
    requires
        0 <= p <= s.len(),
        forall|j: int| 0 <= j < p ==> leq(s[j], x),
        p < s.len() ==> !leq(s[p], x),
    ensures
        insert_by(s, x, leq) == s.take(p) + seq![x] + s.skip(p),
    decreases p,
{
    if s.len() == 0 {
        assert(s.take(0) =~= Seq::<T>::empty());
        assert(s.skip(0) =~= Seq::<T>::empty());
        assert(insert_by(s, x, leq) =~= s.take(p) + seq![x] + s.skip(p));
    } else if p == 0 {
        assert(s.take(0) =~= Seq::<T>::empty());
        assert(s.skip(0) =~= s);
        assert(insert_by(s, x, leq) =~= s.take(p) + seq![x] + s.skip(p));
    } else {
        let d = s.drop_first();
        assert(forall|j: int| 0 <= j < d.len() ==> #[trigger] d[j] == s[j + 1]);
        lemma_insert_by_at(d, x, leq, p - 1);
        assert(seq![s[0]] + (d.take(p - 1) + seq![x] + d.skip(p - 1)) =~= s.take(p) + seq![x]
            + s.skip(p));
    }
}

/// Every element of the insertion result is `x` or one of `s`.
proof fn lemma_insert_by_elems<T>(s: Seq<T>, x: T, leq: spec_fn(T, T) -> bool)
    ensures
        insert_by(s, x, leq).len() == s.len() + 1,
        forall|k: int|
            0 <= k < insert_by(s, x, leq).len() ==> (insert_by(s, x, leq)[k] == x || exists|m: int|
                0 <= m < s.len() && s[m] == insert_by(s, x, leq)[k]),
    decreases s.len(),
{
    if s.len() == 0 {
    } else if !leq(s[0], x) {
        let r = insert_by(s, x, leq);
        assert forall|k: int| 0 <= k < r.len() implies (r[k] == x || exists|m: int|
            0 <= m < s.len() && s[m] == r[k]) by {
            if k >= 1 {
                assert(r[k] == s[k - 1]);
            }
        }
    } else {
        let d = s.drop_first();
        lemma_insert_by_elems(d, x, leq);
        let rd = insert_by(d, x, leq);
        let r = insert_by(s, x, leq);
        assert forall|k: int| 0 <= k < r.len() implies (r[k] == x || exists|m: int|
            0 <= m < s.len() && s[m] == r[k]) by {
            if k == 0 {
                assert(r[0] == s[0]);
            } else {
                assert(r[k] == rd[k - 1]);
                if rd[k - 1] != x {
                    let m = choose|m: int| 0 <= m < d.len() && d[m] == rd[k - 1];
                    assert(s[m + 1] == d[m]);
                }
            }
        }
    }
}

/// Inserting into a sorted sequence keeps it sorted, for a total and
/// transitive order.
pub proof fn lemma_insert_by_sorted<T>(s: Seq<T>, x: T, leq: spec_fn(T, T) -> bool)
    requires
        sorted_by(s, leq),
        forall|a: T, b: T| #[trigger] leq(a, b) || #[trigger] leq(b, a),
        forall|a: T, b: T, c: T| #[trigger] leq(a, b) && #[trigger] leq(b, c) ==> leq(a, c),
    ensures
        sorted_by(insert_by(s, x, leq), leq),
    decreases s.len(),
{
    if s.len() == 0 {
    } else if !leq(s[0], x) {
        let r = insert_by(s, x, leq);
        assert(leq(x, s[0]));
        assert forall|i: int, j: int| 0 <= i < j < r.len() implies leq(r[i], r[j]) by {
            if i == 0 {
                assert(r[j] == s[j - 1]);
                if j - 1 > 0 {
                    assert(leq(s[0], s[j - 1]));
                }
            } else {
                assert(r[i] == s[i - 1] && r[j] == s[j - 1]);
            }
        }
    } else {
        let d = s.drop_first();
        assert(forall|j: int| 0 <= j < d.len() ==> #[trigger] d[j] == s[j + 1]);
        assert(sorted_by(d, leq));
        lemma_insert_by_sorted(d, x, leq);
        lemma_insert_by_elems(d, x, leq);
        let rd = insert_by(d, x, leq);
        let r = insert_by(s, x, leq);
        assert forall|i: int, j: int| 0 <= i < j < r.len() implies leq(r[i], r[j]) by {
            if i == 0 {
                assert(r[j] == rd[j - 1]);
                if rd[j - 1] == x {
                    assert(leq(s[0], x));
                } else {
                    let m = choose|m: int| 0 <= m < d.len() && d[m] == rd[j - 1];
                    if m == 0 {
                        assert(leq(s[0], s[1]));
                    } else {
                        assert(leq(s[0], s[m + 1]));
                    }
                }
            } else {
                assert(r[i] == rd[i - 1] && r[j] == rd[j - 1]);
            }
        }
    }
}

/// The insertion sort is sorted, for a total and transitive order.
pub proof fn lemma_insertion_sort_by_sorted<T>(s: Seq<T>, leq: spec_fn(T, T) -> bool)
    requires
        forall|a: T, b: T| #[trigger] leq(a, b) || #[trigger] leq(b, a),
        forall|a: T, b: T, c: T| #[trigger] leq(a, b) && #[trigger] leq(b, c) ==> leq(a, c),
    ensures
        sorted_by(insertion_sort_by(s, leq), leq),
    decreases s.len(),
{
    if s.len() != 0 {
        lemma_insertion_sort_by_sorted(s.drop_last(), leq);
        lemma_insert_by_sorted(insertion_sort_by(s.drop_last(), leq), s.last(), leq);
    }
}

/// Sorting permutes: the multiset of records is unchanged.
pub proof fn lemma_insert_by_multiset<T>(s: Seq<T>, x: T, leq: spec_fn(T, T) -> bool)
    ensures
        insert_by(s, x, leq).to_multiset() == s.to_multiset().insert(x),
    decreases s.len(),
{
    broadcast use vstd::seq_lib::group_to_multiset_ensures;

    if s.len() == 0 {
        assert(seq![x] =~= Seq::<T>::empty().push(x));
    } else if !leq(s[0], x) {
        assert(seq![x] + s =~= s.insert(0, x));
        vstd::seq_lib::to_multiset_insert(s, 0, x);
    } else {
        let d = s.drop_first();
        lemma_insert_by_multiset(d, x, leq);
        let rd = insert_by(d, x, leq);
        assert(seq![s[0]] + rd =~= rd.insert(0, s[0]));
        vstd::seq_lib::to_multiset_insert(rd, 0, s[0]);
        assert(s =~= d.insert(0, s[0]));
        vstd::seq_lib::to_multiset_insert(d, 0, s[0]);
        assert(d.to_multiset().insert(x).insert(s[0]) =~= d.to_multiset().insert(s[0]).insert(x));
    }
}

pub proof fn lemma_insertion_sort_by_multiset<T>(s: Seq<T>, leq: spec_fn(T, T) -> bool)
    ensures
        insertion_sort_by(s, leq).to_multiset() == s.to_multiset(),
    decreases s.len(),
{
    broadcast use vstd::seq_lib::group_to_multiset_ensures;

    if s.len() != 0 {
        let d = s.drop_last();
        lemma_insertion_sort_by_multiset(d, leq);
        lemma_insert_by_multiset(insertion_sort_by(d, leq), s.last(), leq);
        assert(s =~= d.push(s.last()));
    }
}

// ---------------------------------------------------------------------------
// The A–Z ordering: by country code, ascending.
// ---------------------------------------------------------------------------

/// The A–Z order: non-decreasing country code.
pub open spec fn az_leq() -> spec_fn(ProxyRecord, ProxyRecord) -> bool {
    |a: ProxyRecord, b: ProxyRecord| lex_le(a.country@, b.country@)
}

/// The A–Z output: the records stably sorted by country code.
pub open spec fn sort_az_spec(s: Seq<ProxyRecord>) -> Seq<ProxyRecord> {
    insertion_sort_by(s, az_leq())
}

proof fn lemma_az_leq_laws()
    ensures
        forall|a: ProxyRecord, b: ProxyRecord| #[trigger] az_leq()(a, b) || #[trigger] az_leq()(
            b,
            a,
        ),
        forall|a: ProxyRecord, b: ProxyRecord, c: ProxyRecord|
            #[trigger] az_leq()(a, b) && #[trigger] az_leq()(b, c) ==> az_leq()(a, c),
{
    assert forall|a: ProxyRecord, b: ProxyRecord| #[trigger] az_leq()(a, b) || #[trigger] az_leq()(
        b,
        a,
    ) by {
        lemma_lex_le_total(a.country@, b.country@);
    }
    assert forall|a: ProxyRecord, b: ProxyRecord, c: ProxyRecord|
        #[trigger] az_leq()(a, b) && #[trigger] az_leq()(b, c) implies az_leq()(a, c) by {
        lemma_lex_le_trans(a.country@, b.country@, c.country@);
    }
}

fn az_le_exec(a: &ProxyRecord, b: &ProxyRecord) -> (r: bool)
    ensures
        r == az_leq()(*a, *b),
{
    str_le(a.country.as_str(), b.country.as_str())
}

/// Stable sort by country code ascending, ties keeping arrival order.
pub fn sort_az_countries(proxies: &mut Vec<ProxyRecord>)
    ensures
        final(proxies)@ == sort_az_spec(old(proxies)@),
        sorted_by(final(proxies)@, az_leq()),
        final(proxies)@.to_multiset() == old(proxies)@.to_multiset(),
{
    let ghost orig = proxies@;
    let mut out: Vec<ProxyRecord> = Vec::new();
    let n = proxies.len();
    let mut i: usize = 0;
    proof {
        assert(orig.take(0) =~= Seq::<ProxyRecord>::empty());
    }
    while i < n
        invariant
            n == proxies@.len(),
            proxies@ == orig,
            0 <= i <= n,
            out@ == insertion_sort_by(orig.take(i as int), az_leq()),
        decreases n - i,
    {
        let x = proxies[i].clone();
        let ghost prev = out@;
        proof {
            lemma_az_leq_laws();
            lemma_insertion_sort_by_sorted(orig.take(i as int), az_leq());
        }
        let mut p: usize = 0;
        while p < out.len() && az_le_exec(&out[p], &x)
            invariant
                out@ == prev,
                x == orig[i as int],
                0 <= p <= out@.len(),
                forall|j: int| 0 <= j < p ==> #[trigger] az_leq()(out@[j], x),
            decreases out@.len() - p,
        {
            p += 1;
        }
        out.insert(p, x);
        i += 1;
        proof {
            lemma_insert_by_at(prev, x, az_leq(), p as int);
            assert(out@ =~= prev.take(p as int) + seq![x] + prev.skip(p as int));
            assert(orig.take(i as int).drop_last() =~= orig.take(i - 1));
            assert(orig.take(i as int).last() == orig[i - 1]);
            assert(out@ == insertion_sort_by(orig.take(i as int), az_leq()));
        }
    }
    proof {
        assert(orig.take(n as int) =~= orig);
        lemma_az_leq_laws();
        lemma_insertion_sort_by_sorted(orig, az_leq());
        lemma_insertion_sort_by_multiset(orig, az_leq());
    }
    *proxies = out;
}

// ---------------------------------------------------------------------------
// The priority ordering: records from the priority countries first, in list
// order; all others after, by country code.
// ---------------------------------------------------------------------------

/// Position of `c` in the priority list, or the list's length when absent.
pub open spec fn rank_of(pl: Seq<Seq<char>>, c: Seq<char>) -> int
    decreases pl.len(),
{
    if pl.len() == 0 {
        0
    } else if pl[0] == c {
        0
    } else {
        1 + rank_of(pl.drop_first(), c)
    }
}

pub proof fn lemma_rank_of(pl: Seq<Seq<char>>, c: Seq<char>)
    ensures
        0 <= rank_of(pl, c) <= pl.len(),
        rank_of(pl, c) < pl.len() ==> pl[rank_of(pl, c)] == c && (forall|j: int|
            0 <= j < rank_of(pl, c) ==> pl[j] != c),
        rank_of(pl, c) == pl.len() ==> forall|j: int| 0 <= j < pl.len() ==> pl[j] != c,
    decreases pl.len(),
{
    if pl.len() != 0 && pl[0] != c {
        let d = pl.drop_first();
        lemma_rank_of(d, c);
        assert(forall|j: int| 0 <= j < d.len() ==> #[trigger] d[j] == pl[j + 1]);
        let r = rank_of(pl, c);
        if r < pl.len() {
            assert forall|j: int| 0 <= j < r implies pl[j] != c by {
                if j >= 1 {
                    assert(pl[j] == d[j - 1]);
                }
            }
        } else {
            assert forall|j: int| 0 <= j < pl.len() implies pl[j] != c by {
                if j >= 1 {
                    assert(pl[j] == d[j - 1]);
                }
            }
        }
    }
}

/// The priority order for the given list: lower rank first; among two
/// records of one priority country a tie; among two non-priority records,
/// country code order.
pub open spec fn pri_leq(pl: Seq<Seq<char>>) -> spec_fn(ProxyRecord, ProxyRecord) -> bool {
    |a: ProxyRecord, b: ProxyRecord|
        {
            let ra = rank_of(pl, a.country@);
            let rb = rank_of(pl, b.country@);
            ra < rb || (ra == rb && (ra < pl.len() || lex_le(a.country@, b.country@)))
        }
}

/// The priority output: the records stably sorted under the priority order.
pub open spec fn sort_priority_spec(s: Seq<ProxyRecord>, pl: Seq<Seq<char>>) -> Seq<ProxyRecord> {
    insertion_sort_by(s, pri_leq(pl))
}

proof fn lemma_pri_leq_laws(pl: Seq<Seq<char>>)
    ensures
        forall|a: ProxyRecord, b: ProxyRecord|
            #[trigger] pri_leq(pl)(a, b) || #[trigger] pri_leq(pl)(b, a),
        forall|a: ProxyRecord, b: ProxyRecord, c: ProxyRecord|
            #[trigger] pri_leq(pl)(a, b) && #[trigger] pri_leq(pl)(b, c) ==> pri_leq(pl)(a, c),
{
    assert forall|a: ProxyRecord, b: ProxyRecord|
        #[trigger] pri_leq(pl)(a, b) || #[trigger] pri_leq(pl)(b, a) by {
        lemma_lex_le_total(a.country@, b.country@);
    }
    assert forall|a: ProxyRecord, b: ProxyRecord, c: ProxyRecord|
        #[trigger] pri_leq(pl)(a, b) && #[trigger] pri_leq(pl)(b, c) implies pri_leq(pl)(
        a,
        c,
    ) by {
        let ra = rank_of(pl, a.country@);
        let rb = rank_of(pl, b.country@);
        let rc = rank_of(pl, c.country@);
        if ra == rb && rb == rc && !(ra < pl.len()) {
            lemma_lex_le_trans(a.country@, b.country@, c.country@);
        }
    }
}

fn rank_exec(priority: &Vec<String>, c: &str) -> (r: usize)
    ensures
        r as int == rank_of(priority.deep_view(), c@),
        r <= priority@.len(),
{
    let ghost pl = priority.deep_view();
    proof {
        lemma_rank_of(pl, c@);
    }
    let mut k: usize = 0;
    while k < priority.len()
        invariant
            pl == priority.deep_view(),
            pl.len() == priority@.len(),
            0 <= k <= pl.len(),
            forall|j: int| 0 <= j < k ==> pl[j] != c@,
            0 <= rank_of(pl, c@) <= pl.len(),
            rank_of(pl, c@) < pl.len() ==> pl[rank_of(pl, c@)] == c@ && (forall|j: int|
                0 <= j < rank_of(pl, c@) ==> pl[j] != c@),
            rank_of(pl, c@) == pl.len() ==> forall|j: int| 0 <= j < pl.len() ==> pl[j] != c@,
        decreases priority@.len() - k,
    {
        proof {
            assert(pl[k as int] == priority@[k as int]@);
        }
        if str_eq(priority[k].as_str(), c) {
            return k;
        }
        k += 1;
    }
    priority.len()
}

fn pri_le_exec(priority: &Vec<String>, a: &ProxyRecord, b: &ProxyRecord) -> (r: bool)
    ensures
        r == pri_leq(priority.deep_view())(*a, *b),
{
    let ra = rank_exec(priority, a.country.as_str());
    let rb = rank_exec(priority, b.country.as_str());
    if ra < rb {
        true
    } else if ra > rb {
        false
    } else if ra < priority.len() {
        true
    } else {
        str_le(a.country.as_str(), b.country.as_str())
    }
}

/// Stable sort under the priority order: records of a priority country
/// first, in the list's declared order; all others after, by country code;
/// ties keep arrival order.
pub fn sort_priority_countries(proxies: &mut Vec<ProxyRecord>, priority: &Vec<String>)
    ensures
        final(proxies)@ == sort_priority_spec(old(proxies)@, priority.deep_view()),
        sorted_by(final(proxies)@, pri_leq(priority.deep_view())),
        final(proxies)@.to_multiset() == old(proxies)@.to_multiset(),
{
    let ghost pl = priority.deep_view();
    let ghost orig = proxies@;
    let mut out: Vec<ProxyRecord> = Vec::new();
    let n = proxies.len();
    let mut i: usize = 0;
    proof {
        assert(orig.take(0) =~= Seq::<ProxyRecord>::empty());
    }
    while i < n
        invariant
            pl == priority.deep_view(),
            n == proxies@.len(),
            proxies@ == orig,
            0 <= i <= n,
            out@ == insertion_sort_by(orig.take(i as int), pri_leq(pl)),
        decreases n - i,
    {
        let x = proxies[i].clone();
        let ghost prev = out@;
        let mut p: usize = 0;
        while p < out.len() && pri_le_exec(priority, &out[p], &x)
            invariant
                pl == priority.deep_view(),
                out@ == prev,
                x == orig[i as int],
                0 <= p <= out@.len(),
                forall|j: int| 0 <= j < p ==> #[trigger] pri_leq(pl)(out@[j], x),
            decreases out@.len() - p,
        {
            p += 1;
        }
        out.insert(p, x);
        i += 1;
        proof {
            lemma_insert_by_at(prev, x, pri_leq(pl), p as int);
            assert(out@ =~= prev.take(p as int) + seq![x] + prev.skip(p as int));
            assert(orig.take(i as int).drop_last() =~= orig.take(i - 1));
            assert(orig.take(i as int).last() == orig[i - 1]);
            assert(out@ == insertion_sort_by(orig.take(i as int), pri_leq(pl)));
        }
    }
    proof {
        assert(orig.take(n as int) =~= orig);
        lemma_pri_leq_laws(pl);
        lemma_insertion_sort_by_sorted(orig, pri_leq(pl));
        lemma_insertion_sort_by_multiset(orig, pri_leq(pl));
    }
    *proxies = out;
}

/// Priority ordering law: in a sequence sorted under the priority order,
/// no record of a priority country stands after a record of a non-priority
/// country, and two records of priority countries respect the list's
/// declared order.
pub proof fn lemma_priority_order(s: Seq<ProxyRecord>, pl: Seq<Seq<char>>, i: int, j: int)
    requires
        sorted_by(s, pri_leq(pl)),
        0 <= i < j < s.len(),
    ensures
        rank_of(pl, s[j].country@) < pl.len() ==> rank_of(pl, s[i].country@) <= rank_of(
            pl,
            s[j].country@,
        ),
        rank_of(pl, s[i].country@) == pl.len() ==> rank_of(pl, s[j].country@) == pl.len(),
{
    lemma_rank_of(pl, s[i].country@);
    lemma_rank_of(pl, s[j].country@);
    assert(pri_leq(pl)(s[i], s[j]));
}

// ---------------------------------------------------------------------------
// The country-distribution summary.
// ---------------------------------------------------------------------------

/// Number of records from country `c`.
pub open spec fn count_country(s: Seq<ProxyRecord>, c: Seq<char>) -> int
    decreases s.len(),
{
    if s.len() == 0 {
        0
    } else {
        count_country(s.drop_last(), c) + (if s.last().country@ == c {
            1int
        } else {
            0int
        })
    }
}

/// The distinct countries of `s`, in first-appearance order.
pub open spec fn distinct_countries(s: Seq<ProxyRecord>) -> Seq<Seq<char>>
    decreases s.len(),
{
    if s.len() == 0 {
        Seq::empty()
    } else {
        let rest = distinct_countries(s.drop_last());
        if rest.contains(s.last().country@) {
            rest
        } else {
            rest.push(s.last().country@)
        }
    }
}

/// Country-code order.
pub open spec fn country_leq() -> spec_fn(Seq<char>, Seq<char>) -> bool {
    |a: Seq<char>, b: Seq<char>| lex_le(a, b)
}

/// One summary entry for `c`, present only when records exist.
pub open spec fn entry_of(s: Seq<ProxyRecord>, c: Seq<char>) -> Seq<(Seq<char>, int)> {
    if count_country(s, c) > 0 {
        seq![(c, count_country(s, c))]
    } else {
        Seq::empty()
    }
}

/// The priority section of the summary: each priority country with at
/// least one record, in list order, with its count.
pub open spec fn pri_entries(s: Seq<ProxyRecord>, pl: Seq<Seq<char>>) -> Seq<(Seq<char>, int)>
    decreases pl.len(),
{
    if pl.len() == 0 {
        Seq::empty()
    } else {
        entry_of(s, pl[0]) + pri_entries(s, pl.drop_first())
    }
}

/// Whether a country is outside the priority list.
pub open spec fn is_other(pl: Seq<Seq<char>>) -> spec_fn(Seq<char>) -> bool {
    |c: Seq<char>| rank_of(pl, c) == pl.len()
}

/// The rest of the summary: every other country with a record, in country
/// order, with its count.
pub open spec fn other_entries(s: Seq<ProxyRecord>, pl: Seq<Seq<char>>) -> Seq<(Seq<char>, int)> {
    let others = distinct_countries(s).filter(is_other(pl));
    insertion_sort_by(others, country_leq()).map_values(|c: Seq<char>| (c, count_country(s, c)))
}

/// The full report: the priority section, then the others.
pub open spec fn summary_spec(s: Seq<ProxyRecord>, pl: Seq<Seq<char>>) -> Seq<(Seq<char>, int)> {
    pri_entries(s, pl) + other_entries(s, pl)
}

/// Whether the built entries carry the countries and counts the
/// specification names, position by position.
pub open spec fn entries_match(v: Seq<(String, usize)>, e: Seq<(Seq<char>, int)>) -> bool {
    v.len() == e.len() && (forall|m: int|
        0 <= m < v.len() ==> (#[trigger] v[m]).0@ == e[m].0 && v[m].1 as int == e[m].1)
}

fn count_country_exec(proxies: &Vec<ProxyRecord>, c: &str) -> (r: usize)
    ensures
        r as int == count_country(proxies@, c@),
{
    let n = proxies.len();
    let mut cnt: usize = 0;
    let mut i: usize = 0;
    proof {
        assert(proxies@.take(0) =~= Seq::<ProxyRecord>::empty());
    }
    while i < n
        invariant
            n == proxies@.len(),
            0 <= i <= n,
            cnt <= i,
            cnt as int == count_country(proxies@.take(i as int), c@),
        decreases n - i,
    {
        if str_eq(proxies[i].country.as_str(), c) {
            cnt += 1;
        }
        i += 1;
        proof {
            assert(proxies@.take(i as int).drop_last() =~= proxies@.take(i - 1));
            assert(proxies@.take(i as int).last() == proxies@[i - 1]);
        }
    }
    proof {
        assert(proxies@.take(n as int) =~= proxies@);
    }
    cnt
}

proof fn lemma_contains_push<T>(t: Seq<T>, y: T, x: T)
    ensures
        t.push(y).contains(x) == (t.contains(x) || x == y),
{
    if t.contains(x) {
        let k = choose|k: int| 0 <= k < t.len() && t[k] == x;
        assert(t.push(y)[k] == x);
    }
    if x == y {
        assert(t.push(y)[t.len() as int] == x);
    }
    if t.push(y).contains(x) {
        let k = choose|k: int| 0 <= k < t.push(y).len() && t.push(y)[k] == x;
        if k < t.len() {
            assert(t[k] == x);
        }
    }
}

fn distinct_countries_exec(proxies: &Vec<ProxyRecord>) -> (r: Vec<String>)
    ensures
        r.deep_view() == distinct_countries(proxies@),
{
    let n = proxies.len();
    let mut out: Vec<String> = Vec::new();
    let mut i: usize = 0;
    proof {
        assert(proxies@.take(0) =~= Seq::<ProxyRecord>::empty());
        assert(out.deep_view() =~~= distinct_countries(proxies@.take(0)));
    }
    while i < n
        invariant
            n == proxies@.len(),
            0 <= i <= n,
            out.deep_view() == distinct_countries(proxies@.take(i as int)),
        decreases n - i,
    {
        let ghost prev = out.deep_view();
        let c = &proxies[i].country;
        let mut seen = false;
        let mut j: usize = 0;
        while j < out.len()
            invariant
                out.deep_view() == prev,
                0 <= j <= prev.len(),
                c@ == proxies@[i as int].country@,
                seen == prev.take(j as int).contains(c@),
            decreases prev.len() - j,
        {
            let hit = str_eq(out[j].as_str(), c.as_str());
            j += 1;
            proof {
                assert(prev.take(j as int) =~~= prev.take(j - 1).push(prev[j - 1]));
                lemma_contains_push(prev.take(j - 1), prev[j - 1], c@);
                assert(prev[j - 1] == out@[j - 1]@);
            }
            if hit {
                seen = true;
            }
        }
        proof {
            assert(prev.take(prev.len() as int) =~~= prev);
        }
        if !seen {
            out.push(c.clone());
            proof {
                assert(out.deep_view() =~~= prev.push(c@));
            }
        }
        i += 1;
        proof {
            assert(proxies@.take(i as int).drop_last() =~= proxies@.take(i - 1));
            assert(proxies@.take(i as int).last() == proxies@[i - 1]);
            assert(out.deep_view() =~~= distinct_countries(proxies@.take(i as int)));
        }
    }
    proof {
        assert(proxies@.take(n as int) =~= proxies@);
    }
    out
}

fn other_countries_exec(dc: Vec<String>, priority: &Vec<String>) -> (r: Vec<String>)
    ensures
        r.deep_view() == dc.deep_view().filter(is_other(priority.deep_view())),
{
    let ghost pl = priority.deep_view();
    let ghost dv = dc.deep_view();
    let mut out: Vec<String> = Vec::new();
    let mut i: usize = 0;
    proof {
        reveal(Seq::filter);
        assert(dv.take(0) =~~= Seq::<Seq<char>>::empty());
        assert(out.deep_view() =~~= dv.take(0).filter(is_other(pl)));
    }
    while i < dc.len()
        invariant
            pl == priority.deep_view(),
            dv == dc.deep_view(),
            dv.len() == dc@.len(),
            0 <= i <= dc@.len(),
            out.deep_view() == dv.take(i as int).filter(is_other(pl)),
        decreases dc@.len() - i,
    {
        let ghost prev = out.deep_view();
        let rk = rank_exec(priority, dc[i].as_str());
        proof {
            assert(dv[i as int] == dc@[i as int]@);
        }
        if rk == priority.len() {
            out.push(dc[i].clone());
            proof {
                assert(out.deep_view() =~~= prev.push(dv[i as int]));
            }
        }
        i += 1;
        proof {
            reveal(Seq::filter);
            let t = dv.take(i as int);
            assert(t.drop_last() =~~= dv.take(i - 1));
            assert(t.last() == dv[i - 1]);
            assert(out.deep_view() =~~= t.filter(is_other(pl)));
        }
    }
    proof {
        assert(dv.take(dc@.len() as int) =~~= dv);
    }
    out
}

proof fn lemma_country_leq_laws()
    ensures
        forall|a: Seq<char>, b: Seq<char>|
            #[trigger] country_leq()(a, b) || #[trigger] country_leq()(b, a),
        forall|a: Seq<char>, b: Seq<char>, c: Seq<char>|
            #[trigger] country_leq()(a, b) && #[trigger] country_leq()(b, c) ==> country_leq()(
                a,
                c,
            ),
{
    assert forall|a: Seq<char>, b: Seq<char>|
        #[trigger] country_leq()(a, b) || #[trigger] country_leq()(b, a) by {
        lemma_lex_le_total(a, b);
    }
    assert forall|a: Seq<char>, b: Seq<char>, c: Seq<char>|
        #[trigger] country_leq()(a, b) && #[trigger] country_leq()(b, c) implies country_leq()(
        a,
        c,
    ) by {
        lemma_lex_le_trans(a, b, c);
    }
}

fn sort_countries_exec(v: Vec<String>) -> (r: Vec<String>)
    ensures
        r.deep_view() == insertion_sort_by(v.deep_view(), country_leq()),
{
    let ghost dv = v.deep_view();
    let mut out: Vec<String> = Vec::new();
    let n = v.len();
    let mut i: usize = 0;
    proof {
        assert(dv.take(0) =~~= Seq::<Seq<char>>::empty());
    }
    while i < n
        invariant
            dv == v.deep_view(),
            n == v@.len(),
            dv.len() == v@.len(),
            0 <= i <= n,
            out.deep_view() == insertion_sort_by(dv.take(i as int), country_leq()),
        decreases n - i,
    {
        let x = v[i].clone();
        let ghost prev = out.deep_view();
        proof {
            assert(x@ == dv[i as int]);
        }
        let mut p: usize = 0;
        while p < out.len() && str_le(out[p].as_str(), x.as_str())
            invariant
                out.deep_view() == prev,
                out@.len() == prev.len(),
                x@ == dv[i as int],
                0 <= p <= prev.len(),
                forall|j: int| 0 <= j < p ==> #[trigger] country_leq()(prev[j], x@),
            decreases prev.len() - p,
        {
            proof {
                assert(prev[p as int] == out@[p as int]@);
            }
            p += 1;
        }
        proof {
            if p < out@.len() {
                assert(prev[p as int] == out@[p as int]@);
            }
        }
        out.insert(p, x);
        i += 1;
        proof {
            lemma_insert_by_at(prev, dv[i - 1], country_leq(), p as int);
            assert(out.deep_view() =~~= prev.take(p as int) + seq![dv[i - 1]] + prev.skip(
                p as int,
            ));
            assert(dv.take(i as int).drop_last() =~~= dv.take(i - 1));
            assert(dv.take(i as int).last() == dv[i - 1]);
            assert(out.deep_view() =~~= insertion_sort_by(dv.take(i as int), country_leq()));
        }
    }
    proof {
        assert(dv.take(n as int) =~~= dv);
    }
    out
}

proof fn lemma_pri_entries_take(s: Seq<ProxyRecord>, pl: Seq<Seq<char>>, k: int)
    requires
        0 <= k < pl.len(),
    ensures
        pri_entries(s, pl.take(k + 1)) == pri_entries(s, pl.take(k)) + entry_of(s, pl[k]),
    decreases k,
{
    if k == 0 {
        let t = pl.take(1);
        assert(t[0] == pl[0]);
        let e = t.drop_first();
        assert(e.len() == 0);
        assert(pri_entries(s, e) =~~= Seq::<(Seq<char>, int)>::empty());
        assert(entry_of(s, t[0]) + pri_entries(s, e) =~~= entry_of(s, pl[0]));
        assert(pl.take(0).len() == 0);
        assert(pri_entries(s, pl.take(0)) =~~= Seq::<(Seq<char>, int)>::empty());
        assert(pri_entries(s, pl.take(0)) + entry_of(s, pl[0]) =~~= entry_of(s, pl[0]));
    } else {
        let d = pl.drop_first();
        lemma_pri_entries_take(s, d, k - 1);
        assert(pl.take(k + 1).drop_first() =~~= d.take(k));
        assert(pl.take(k).drop_first() =~~= d.take(k - 1));
        assert(pl.take(k + 1)[0] == pl[0]);
        assert(pl.take(k)[0] == pl[0]);
        assert(d[k - 1] == pl[k]);
        assert(pri_entries(s, pl.take(k + 1)) =~~= entry_of(s, pl[0]) + pri_entries(s, d.take(k)));
        assert(entry_of(s, pl[0]) + (pri_entries(s, d.take(k - 1)) + entry_of(s, pl[k])) =~~= (
        entry_of(s, pl[0]) + pri_entries(s, d.take(k - 1))) + entry_of(s, pl[k]));
    }
}

/// The country-distribution report: each priority country that has
/// records, in list order, then every other country with records, in
/// country order, each with its record count.
pub fn country_summary(proxies: &Vec<ProxyRecord>, priority: &Vec<String>) -> (r: Vec<
    (String, usize),
>)
    ensures
        entries_match(r@, summary_spec(proxies@, priority.deep_view())),
{
    let ghost pl = priority.deep_view();
    let mut out: Vec<(String, usize)> = Vec::new();
    let mut k: usize = 0;
    proof {
        assert(pl.take(0) =~~= Seq::<Seq<char>>::empty());
        assert(entries_match(out@, pri_entries(proxies@, pl.take(0))));
    }
    while k < priority.len()
        invariant
            pl == priority.deep_view(),
            pl.len() == priority@.len(),
            0 <= k <= priority@.len(),
            entries_match(out@, pri_entries(proxies@, pl.take(k as int))),
        decreases priority@.len() - k,
    {
        let ghost prevlen = out@.len();
        let cnt = count_country_exec(proxies, priority[k].as_str());
        proof {
            assert(pl[k as int] == priority@[k as int]@);
        }
        if cnt > 0 {
            out.push((priority[k].clone(), cnt));
        }
        k += 1;
        proof {
            lemma_pri_entries_take(proxies@, pl, k - 1);
            assert(entries_match(out@, pri_entries(proxies@, pl.take(k as int))));
        }
    }
    proof {
        assert(pl.take(priority@.len() as int) =~~= pl);
    }
    let ghost prient = pri_entries(proxies@, pl);
    let dc = distinct_countries_exec(proxies);
    let others = other_countries_exec(dc, priority);
    let sorted = sort_countries_exec(others);
    let ghost sortedv = sorted.deep_view();
    let mut m: usize = 0;
    proof {
        assert(out@.take(prient.len() as int) =~= out@);
    }
    while m < sorted.len()
        invariant
            pl == priority.deep_view(),
            sortedv == sorted.deep_view(),
            sortedv.len() == sorted@.len(),
            0 <= m <= sorted@.len(),
            out@.len() == prient.len() + m,
            entries_match(out@.take(prient.len() as int), prient),
            forall|q: int|
                0 <= q < m ==> (#[trigger] out@[prient.len() + q]).0@ == sortedv[q]
                    && out@[prient.len() + q].1 as int == count_country(proxies@, sortedv[q]),
        decreases sorted@.len() - m,
    {
        let ghost prevout = out@;
        let cnt = count_country_exec(proxies, sorted[m].as_str());
        proof {
            assert(sortedv[m as int] == sorted@[m as int]@);
        }
        out.push((sorted[m].clone(), cnt));
        m += 1;
        proof {
            assert(out@.take(prient.len() as int) =~= prevout.take(prient.len() as int));
        }
    }
    proof {
        let spec_all = summary_spec(proxies@, pl);
        let oth = other_entries(proxies@, pl);
        let others_spec = distinct_countries(proxies@).filter(is_other(pl));
        assert(sortedv == insertion_sort_by(others_spec, country_leq()));
        assert(oth.len() == sortedv.len());
        assert(spec_all.len() == prient.len() + oth.len());
        assert forall|q: int| 0 <= q < out@.len() implies (#[trigger] out@[q]).0@ == spec_all[q].0
            && out@[q].1 as int == spec_all[q].1 by {
            if q < prient.len() {
                assert(out@.take(prient.len() as int)[q] == out@[q]);
                assert(spec_all[q] == prient[q]);
            } else {
                let qq = q - prient.len();
                assert(out@[prient.len() + qq] == out@[q]);
                assert(oth[qq] == (sortedv[qq], count_country(proxies@, sortedv[qq])));
                assert(spec_all[q] == oth[qq]);
            }
        }
        assert(entries_match(out@, spec_all));
    }
    out
}

} // verus!
