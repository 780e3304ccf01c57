//! Ordering of version identifiers, newest first.
//!
//! An identifier is split on `.`; each part that reads as an unsigned 32-bit
//! decimal number is kept, the others are dropped. Two identifiers compare
//! part by part, the shorter one padded with zeros.

use core::cmp::Ordering;
use vstd::prelude::*;

verus! {

pub open spec fn is_digit(c: char) -> bool {
    '0' <= c && c <= '9'
}

pub open spec fn digit_value(c: char) -> nat {
    (c as u32 - '0' as u32) as nat
}

/// The number that a string of decimal digits writes.
pub open spec fn decimal_value(s: Seq<char>) -> nat
    decreases s.len(),
{
    if s.len() == 0 {
        0
    } else {
        decimal_value(s.drop_last()) * 10 + digit_value(s.last())
    }
}

pub open spec fn all_digits(s: Seq<char>) -> bool {
    forall|i: int| 0 <= i < s.len() ==> is_digit(#[trigger] s[i])
}

/// The digits of a part, without the `+` sign that it may start with.
pub open spec fn unsigned_digits(s: Seq<char>) -> Seq<char> {
    if s.len() > 0 && s[0] == '+' {
        s.drop_first()
    } else {
        s
    }
}

/// A part read as a `u32`: an optional `+`, then at least one digit, within range.
pub open spec fn parse_component(s: Seq<char>) -> Option<u32> {
    let d = unsigned_digits(s);
    if d.len() > 0 && all_digits(d) && decimal_value(d) <= u32::MAX {
        Some(decimal_value(d) as u32)
    } else {
        None
    }
}

/// The parts of `s` between dots; there is always at least one.
pub open spec fn split_dots(s: Seq<char>) -> Seq<Seq<char>>
    decreases s.len(),
{
    if s.len() == 0 {
        seq![Seq::empty()]
    } else {
        let pre = split_dots(s.drop_last());
        if s.last() == '.' {
            pre.push(Seq::empty())
        } else {
            pre.update(pre.len() - 1, pre.last().push(s.last()))
        }
    }
}

/// The numbers of the parts that parse, in order.
pub open spec fn parsed_components(parts: Seq<Seq<char>>) -> Seq<u32>
    decreases parts.len(),
{
    if parts.len() == 0 {
        seq![]
    } else {
        let pre = parsed_components(parts.drop_last());
        match parse_component(parts.last()) {
            Some(n) => pre.push(n),
            None => pre,
        }
    }
}

/// The numeric key of a version identifier.
pub open spec fn version_key(v: Seq<char>) -> Seq<u32> {
    parsed_components(split_dots(v))
}

/// Component `i` of a key, zero past its end.
pub open spec fn key_at(k: Seq<u32>, i: int) -> u32 {
    if 0 <= i < k.len() {
        k[i]
    } else {
        0
    }
}

pub open spec fn max_len(a: Seq<u32>, b: Seq<u32>) -> int {
    if a.len() >= b.len() {
        a.len() as int
    } else {
        b.len() as int
    }
}

/// Lexicographic comparison of two zero-padded keys from position `i` on.
pub open spec fn compare_keys_from(a: Seq<u32>, b: Seq<u32>, i: int) -> Ordering
    decreases max_len(a, b) - i,
{
    if i >= max_len(a, b) {
        Ordering::Equal
    } else if key_at(a, i) > key_at(b, i) {
        Ordering::Greater
    } else if key_at(a, i) < key_at(b, i) {
        Ordering::Less
    } else {
        compare_keys_from(a, b, i + 1)
    }
}

/// How two version identifiers are ordered.
pub open spec fn compare_spec(a: Seq<char>, b: Seq<char>) -> Ordering {
    compare_keys_from(version_key(a), version_key(b), 0)
}

/// Each identifier is at least as new as every one after it.
pub open spec fn sorted_desc(s: Seq<Seq<char>>) -> bool {
    forall|i: int, j: int| 0 <= i < j < s.len() ==> compare_spec(s[i], s[j]) != Ordering::Less
}

/// Holds of the identifiers that rank equal to `v`.
pub open spec fn same_rank(v: Seq<char>) -> spec_fn(Seq<char>) -> bool {
    |w: Seq<char>| compare_spec(w, v) == Ordering::Equal
}

/// `out` is `input` ordered newest first, stably: for every rank, the
/// identifiers of that rank stand in `out` as they stood in `input`.
pub open spec fn newest_first_of(out: Seq<Seq<char>>, input: Seq<Seq<char>>) -> bool {
    &&& sorted_desc(out)
    &&& forall|v: Seq<char>| #[trigger] out.filter(same_rank(v)) == input.filter(same_rank(v))
    &&& out.to_multiset() == input.to_multiset()
}

pub open spec fn views(v: Seq<String>) -> Seq<Seq<char>> {
    v.map_values(|s: String| s@)
}

proof fn lemma_unfold(a: Seq<u32>, b: Seq<u32>, i: int)
    requires
        0 <= i,
    ensures
        compare_keys_from(a, b, i) == (if key_at(a, i) > key_at(b, i) {
            Ordering::Greater
        } else if key_at(a, i) < key_at(b, i) {
            Ordering::Less
        } else {
            compare_keys_from(a, b, i + 1)
        }),
{
    if i >= max_len(a, b) {
        assert(compare_keys_from(a, b, i + 1) == Ordering::Equal);
    }
}

proof fn lemma_keys_flip(a: Seq<u32>, b: Seq<u32>, i: int)
    requires
        0 <= i,
    ensures
        compare_keys_from(a, b, i) == Ordering::Greater <==> compare_keys_from(b, a, i)
            == Ordering::Less,
        compare_keys_from(a, b, i) == Ordering::Equal <==> compare_keys_from(b, a, i)
            == Ordering::Equal,
    decreases max_len(a, b) - i,
{
    if i < max_len(a, b) {
        lemma_keys_flip(a, b, i + 1);
    }
}

proof fn lemma_keys_trans(a: Seq<u32>, b: Seq<u32>, c: Seq<u32>, i: int)
    requires
        0 <= i,
        compare_keys_from(a, b, i) != Ordering::Less,
        compare_keys_from(b, c, i) != Ordering::Less,
    ensures
        compare_keys_from(a, c, i) != Ordering::Less,
        compare_keys_from(a, b, i) == Ordering::Greater ==> compare_keys_from(a, c, i)
            == Ordering::Greater,
        compare_keys_from(b, c, i) == Ordering::Greater ==> compare_keys_from(a, c, i)
            == Ordering::Greater,
    decreases max_len(a, b) + c.len() - i,
{
    lemma_unfold(a, b, i);
    lemma_unfold(b, c, i);
    lemma_unfold(a, c, i);
    if i < max_len(a, b) || i < c.len() {
        if key_at(a, i) == key_at(b, i) && key_at(b, i) == key_at(c, i) {
            lemma_keys_trans(a, b, c, i + 1);
        }
    }
}

/// `compare_spec` is antisymmetric.
pub proof fn lemma_compare_flip(a: Seq<char>, b: Seq<char>)
    ensures
        compare_spec(a, b) == Ordering::Greater <==> compare_spec(b, a) == Ordering::Less,
        compare_spec(a, b) == Ordering::Equal <==> compare_spec(b, a) == Ordering::Equal,
{
    lemma_keys_flip(version_key(a), version_key(b), 0);
}

/// `compare_spec` is transitive, strictly where either step is strict.
pub proof fn lemma_compare_trans(a: Seq<char>, b: Seq<char>, c: Seq<char>)
    requires
        compare_spec(a, b) != Ordering::Less,
        compare_spec(b, c) != Ordering::Less,
    ensures
        compare_spec(a, c) != Ordering::Less,
        compare_spec(a, b) == Ordering::Greater ==> compare_spec(a, c) == Ordering::Greater,
        compare_spec(b, c) == Ordering::Greater ==> compare_spec(a, c) == Ordering::Greater,
{
    lemma_keys_trans(version_key(a), version_key(b), version_key(c), 0);
}


/// The characters of `s`, one by one.
pub fn chars_of(s: &str) -> (r: Vec<char>)
    ensures
        r@ == s@,
{
    let n = s.unicode_len();
    let mut r: Vec<char> = Vec::new();
    let mut i: usize = 0;
    while i < n
        invariant
            n == s@.len(),
            i <= n,
            r@ == s@.take(i as int),
        decreases n - i,
    {
        r.push(s.get_char(i));
        proof {
            assert(s@.take(i + 1) =~= s@.take(i as int).push(s@[i as int]));
        }
        i += 1;
    }
    proof {
        assert(s@.take(n as int) =~= s@);
    }
    r
}

/// Reads `cs[lo..hi]` as a version part.
fn parse_range(cs: &Vec<char>, lo: usize, hi: usize) -> (r: Option<u32>)
    requires
        lo <= hi <= cs@.len(),
    ensures
        r == parse_component(cs@.subrange(lo as int, hi as int)),
{
    let ghost seg = cs@.subrange(lo as int, hi as int);
    let mut start = lo;
    if lo < hi && cs[lo] == '+' {
        start = lo + 1;
    }
    let ghost d = cs@.subrange(start as int, hi as int);
    proof {
        assert(unsigned_digits(seg) =~= d);
    }
    if start == hi {
        return None;
    }
    let cap: u64 = 0x1_0000_0000;
    let mut acc: u64 = 0;
    let mut j = start;
    while j < hi
        invariant
            lo <= start <= j <= hi <= cs@.len(),
            d == cs@.subrange(start as int, hi as int),
            seg == cs@.subrange(lo as int, hi as int),
            unsigned_digits(seg) == d,
            all_digits(cs@.subrange(start as int, j as int)),
            acc <= cap,
            cap == 0x1_0000_0000,
            acc == (if decimal_value(cs@.subrange(start as int, j as int)) < cap {
                decimal_value(cs@.subrange(start as int, j as int))
            } else {
                cap as nat
            }),
        decreases hi - j,
    {
        let c = cs[j];
        if !('0' <= c && c <= '9') {
            proof {
                assert(d[j - start] == c);
                assert(!is_digit(d[j - start]));
                assert(!all_digits(d));
                assert(unsigned_digits(seg) == d);
            }
            return None;
        }
        let dv = (c as u32 - '0' as u32) as u64;
        let ghost prev = cs@.subrange(start as int, j as int);
        let ghost next = cs@.subrange(start as int, j + 1);
        proof {
            assert(next.drop_last() =~= prev);
            assert(next.last() == c);
            assert(decimal_value(next) == decimal_value(prev) * 10 + digit_value(c));
            assert forall|k: int| 0 <= k < next.len() implies is_digit(#[trigger] next[k]) by {
                if k < prev.len() {
                    assert(next[k] == prev[k]);
                }
            }
            let v = decimal_value(prev);
            if v >= cap {
                assert(v * 10 + digit_value(c) >= cap) by (nonlinear_arith)
                    requires v >= cap;
            }
        }
        if acc >= cap {
            acc = cap;
        } else {
            let t = acc * 10 + dv;
            acc = if t >= cap { cap } else { t };
        }
        j += 1;
    }
    proof {
        assert(cs@.subrange(start as int, j as int) =~= d);
    }
    if acc < cap {
        Some(acc as u32)
    } else {
        None
    }
}

/// The numeric key of `v`: the parts between dots that read as numbers.
pub fn version_key_of(v: &str) -> (r: Vec<u32>)
    ensures
        r@ == version_key(v@),
{
    let cs = chars_of(v);
    let n = cs.len();
    let mut key: Vec<u32> = Vec::new();
    let mut start: usize = 0;
    let mut i: usize = 0;
    let ghost mut done: Seq<Seq<char>> = seq![];
    proof {
        assert(cs@.take(0) =~= Seq::<char>::empty());
        assert(cs@.subrange(0, 0) =~= Seq::<char>::empty());
        assert(split_dots(cs@.take(0)) =~= done.push(cs@.subrange(0, 0)));
    }
    while i < n
        invariant
            n == cs@.len(),
            cs@ == v@,
            start <= i <= n,
            split_dots(cs@.take(i as int)) == done.push(cs@.subrange(start as int, i as int)),
            key@ == parsed_components(done),
        decreases n - i,
    {
        let ghost seg = cs@.subrange(start as int, i as int);
        proof {
            assert(cs@.take(i + 1).drop_last() =~= cs@.take(i as int));
            assert(cs@.take(i + 1).last() == cs@[i as int]);
        }
        if cs[i] == '.' {
            let p = parse_range(&cs, start, i);
            match p {
                Some(x) => key.push(x),
                None => {},
            }
            proof {
                assert(done.push(seg).drop_last() =~= done);
                done = done.push(seg);
                assert(cs@.subrange(i + 1, i + 1) =~= Seq::<char>::empty());
            }
            start = i + 1;
        } else {
            proof {
                assert(cs@.subrange(start as int, i + 1) =~= seg.push(cs@[i as int]));
                assert(done.push(seg).update(done.len() as int, seg.push(cs@[i as int]))
                    =~= done.push(cs@.subrange(start as int, i + 1)));
            }
        }
        i += 1;
    }
    proof {
        assert(cs@.take(n as int) =~= cs@);
        assert(done.push(cs@.subrange(start as int, n as int)).drop_last() =~= done);
    }
    let last = parse_range(&cs, start, n);
    match last {
        Some(x) => key.push(x),
        None => {},
    }
    key
}

/// Compares two version identifiers; `Greater` means `a` is newer.
pub fn compare_versions(a: &str, b: &str) -> (r: Ordering)
    ensures
        r == compare_spec(a@, b@),
{
    let ka = version_key_of(a);
    let kb = version_key_of(b);
    let m = if ka.len() >= kb.len() {
        ka.len()
    } else {
        kb.len()
    };
    let mut i: usize = 0;
    while i < m
        invariant
            ka@ == version_key(a@),
            kb@ == version_key(b@),
            m == max_len(ka@, kb@),
            i <= m,
            compare_spec(a@, b@) == compare_keys_from(ka@, kb@, i as int),
        decreases m - i,
    {
        let x = if i < ka.len() {
            ka[i]
        } else {
            0
        };
        let y = if i < kb.len() {
            kb[i]
        } else {
            0
        };
        if x > y {
            return Ordering::Greater;
        } else if x < y {
            return Ordering::Less;
        }
        i += 1;
    }
    Ordering::Equal
}


/// Inserting `x` at `p` keeps each rank's subsequence, with `x` last in its own rank,
/// when every element from `p` on is strictly older than `x`.
proof fn lemma_insert_keeps_ranks(s: Seq<Seq<char>>, p: int, x: Seq<char>, v: Seq<char>)
    requires
        0 <= p <= s.len(),
        forall|k: int| p <= k < s.len() ==> compare_spec(x, #[trigger] s[k]) == Ordering::Greater,
    ensures
        s.insert(p, x).filter(same_rank(v)) == (if same_rank(v)(x) {
            s.filter(same_rank(v)).push(x)
        } else {
            s.filter(same_rank(v))
        }),
{
    let f = same_rank(v);
    let pre = s.take(p);
    let post = s.skip(p);
    assert(s =~= pre + post);
    assert(s.insert(p, x) =~= pre.push(x) + post);
    Seq::filter_distributes_over_add(pre, post, f);
    Seq::filter_distributes_over_add(pre.push(x), post, f);
    pre.lemma_filter_push(x, f);
    if f(x) {
        assert forall|k: int| 0 <= k < post.len() implies !f(#[trigger] post[k]) by {
            assert(post[k] == s[p + k]);
            lemma_compare_flip(x, v);
            lemma_compare_flip(post[k], x);
            lemma_compare_trans(v, x, post[k]);
            lemma_compare_flip(post[k], v);
        }
        post.lemma_all_neg_filter_empty(f);
        assert(post.filter(f) =~= Seq::<Seq<char>>::empty());
        assert(pre.filter(f) + post.filter(f) =~= pre.filter(f));
        assert(pre.filter(f).push(x) + post.filter(f) =~= pre.filter(f).push(x));
    }
}

/// Sorts `versions` newest first. Identifiers of equal rank keep their relative
/// order, and nothing is added or lost: for every rank, the identifiers of that
/// rank come out as they went in.
pub fn sort_versions_desc(versions: &mut Vec<String>)
    ensures
        newest_first_of(views(final(versions)@), views(old(versions)@)),
{
    let ghost input = views(versions@);
    let mut out: Vec<String> = Vec::new();
    let n = versions.len();
    let mut i: usize = 0;
    while i < n
        invariant
            n == versions@.len(),
            input == views(versions@),
            i <= n,
            sorted_desc(views(out@)),
            forall|v: Seq<char>|
                #[trigger] views(out@).filter(same_rank(v)) == input.take(i as int).filter(
                    same_rank(v),
                ),
        decreases n - i,
    {
        let x = versions[i].clone();
        let mut p: usize = 0;
        let mut found = false;
        while !found && p < out.len()
            invariant
                p <= out@.len(),
                found ==> p < out@.len() && compare_spec(x@, out@[p as int]@) == Ordering::Greater,
                forall|k: int|
                    0 <= k < p ==> compare_spec(x@, #[trigger] out@[k]@) != Ordering::Greater,
            decreases out@.len() - p, if found { 0int } else { 1int },
        {
            if matches!(compare_versions(x.as_str(), out[p].as_str()), Ordering::Greater) {
                found = true;
            } else {
                p += 1;
            }
        }
        let ghost old_out = views(out@);
        proof {
            assert forall|k: int| p <= k < old_out.len() implies compare_spec(
                x@,
                #[trigger] old_out[k],
            ) == Ordering::Greater by {
                assert(old_out[p as int] == out@[p as int]@);
                if k > p {
                    lemma_compare_trans(x@, old_out[p as int], old_out[k]);
                }
            }
            assert forall|v: Seq<char>|
                #[trigger] old_out.insert(p as int, x@).filter(same_rank(v)) == input.take(
                    i + 1,
                ).filter(same_rank(v)) by {
                lemma_insert_keeps_ranks(old_out, p as int, x@, v);
                assert(input.take(i + 1) =~= input.take(i as int).push(x@));
                input.take(i as int).lemma_filter_push(x@, same_rank(v));
            }
        }
        out.insert(p, x);
        proof {
            assert(views(out@) =~= old_out.insert(p as int, x@));
            assert forall|a: int, b: int| 0 <= a < b < views(out@).len() implies compare_spec(
                views(out@)[a],
                views(out@)[b],
            ) != Ordering::Less by {
                let s = views(out@);
                if b == p {
                    lemma_compare_flip(x@, old_out[a]);
                } else if a == p {
                    assert(s[b] == old_out[b - 1]);
                } else {
                    let a0 = if a < p { a } else { a - 1 };
                    let b0 = if b < p { b } else { b - 1 };
                    assert(s[a] == old_out[a0] && s[b] == old_out[b0]);
                }
            }
        }
        i += 1;
    }
    proof {
        assert(input.take(n as int) =~= input);
        let o = views(out@);
        assert forall|v: Seq<char>| o.to_multiset().count(v) == input.to_multiset().count(v) by {
            lemma_rank_count(o, input, v);
        }
        assert(o.to_multiset() =~= input.to_multiset());
    }
    *versions = out;
}

/// Sequences with the same identifiers in every rank hold each identifier
/// equally often.
proof fn lemma_rank_count(a: Seq<Seq<char>>, b: Seq<Seq<char>>, v: Seq<char>)
    requires
        a.filter(same_rank(v)) == b.filter(same_rank(v)),
    ensures
        a.to_multiset().count(v) == b.to_multiset().count(v),
{
    lemma_count_in_rank(a, v);
    lemma_count_in_rank(b, v);
}

/// `v` occurs in `s` as often as in the identifiers of its own rank.
proof fn lemma_count_in_rank(s: Seq<Seq<char>>, v: Seq<char>)
    ensures
        s.to_multiset().count(v) == s.filter(same_rank(v)).to_multiset().count(v),
    decreases s.len(),
{
    broadcast use vstd::seq_lib::group_to_multiset_ensures;
    if s.len() > 0 {
        let pre = s.drop_last();
        lemma_count_in_rank(pre, v);
        assert(s =~= pre.push(s.last()));
        pre.lemma_filter_push(s.last(), same_rank(v));
        lemma_compare_flip(v, v);
        lemma_self_equal(v);
    }
}

proof fn lemma_self_equal(v: Seq<char>)
    ensures
        compare_spec(v, v) == Ordering::Equal,
{
    lemma_keys_self(version_key(v), 0);
}

proof fn lemma_keys_self(a: Seq<u32>, i: int)
    requires
        0 <= i,
    ensures
        compare_keys_from(a, a, i) == Ordering::Equal,
    decreases a.len() - i,
{
    if i < a.len() {
        lemma_keys_self(a, i + 1);
    }
}


/// Two sorted sequences with the same identifiers in every rank are equal.
proof fn lemma_sorted_same_ranks_equal(a: Seq<Seq<char>>, b: Seq<Seq<char>>)
    requires
        sorted_desc(a),
        sorted_desc(b),
        forall|v: Seq<char>| #[trigger] a.filter(same_rank(v)) == b.filter(same_rank(v)),
    ensures
        a == b,
    decreases a.len() + b.len(),
{
    if a.len() == 0 && b.len() == 0 {
        assert(a =~= b);
        return;
    }
    if a.len() == 0 {
        lemma_first_in_rank(b);
        assert(b.filter(same_rank(b[0])) == a.filter(same_rank(b[0])));
        assert(a.filter(same_rank(b[0])) =~= Seq::<Seq<char>>::empty()) by {
            reveal(Seq::filter);
        }
        assert(false);
        return;
    }
    if b.len() == 0 {
        lemma_first_in_rank(a);
        assert(a.filter(same_rank(a[0])) == b.filter(same_rank(a[0])));
        assert(b.filter(same_rank(a[0])) =~= Seq::<Seq<char>>::empty()) by {
            reveal(Seq::filter);
        }
        assert(false);
        return;
    }
    let x = a[0];
    let y = b[0];
    let ta = a.drop_first();
    let tb = b.drop_first();
    assert(a =~= seq![x] + ta);
    assert(b =~= seq![y] + tb);
    lemma_self_equal(x);
    lemma_self_equal(y);
    // x lies in b and y in a, so each is at least as new as the other.
    ta.lemma_filter_prepend(x, same_rank(x));
    tb.lemma_filter_prepend(y, same_rank(x));
    assert(a.filter(same_rank(x))[0] == x);
    assert(b.filter(same_rank(x)).contains(x));
    b.lemma_filter_contains_rev(same_rank(x), x);
    let j = choose|j: int| 0 <= j < b.len() && b[j] == x;
    if j > 0 {
        assert(compare_spec(y, b[j]) != Ordering::Less);
    }
    ta.lemma_filter_prepend(x, same_rank(y));
    tb.lemma_filter_prepend(y, same_rank(y));
    assert(a.filter(same_rank(y)) == b.filter(same_rank(y)));
    assert(b.filter(same_rank(y))[0] == y);
    assert(a.filter(same_rank(y)).contains(y));
    a.lemma_filter_contains_rev(same_rank(y), y);
    let i = choose|i: int| 0 <= i < a.len() && a[i] == y;
    if i > 0 {
        assert(compare_spec(x, a[i]) != Ordering::Less);
    }
    lemma_compare_flip(x, y);
    // Same rank: y comes first among x's rank in b, as x does in a.
    assert(same_rank(x)(y));
    assert(b.filter(same_rank(x))[0] == y);
    assert(x == y);
    assert forall|v: Seq<char>| #[trigger] ta.filter(same_rank(v)) == tb.filter(same_rank(v)) by {
        ta.lemma_filter_prepend(x, same_rank(v));
        tb.lemma_filter_prepend(y, same_rank(v));
        assert(a.filter(same_rank(v)) == b.filter(same_rank(v)));
        if same_rank(v)(x) {
            assert(ta.filter(same_rank(v)) =~= a.filter(same_rank(v)).drop_first());
            assert(tb.filter(same_rank(v)) =~= b.filter(same_rank(v)).drop_first());
        } else {
            assert(ta.filter(same_rank(v)) =~= a.filter(same_rank(v)));
            assert(tb.filter(same_rank(v)) =~= b.filter(same_rank(v)));
        }
    }
    assert(sorted_desc(ta)) by {
        assert forall|p: int, q: int| 0 <= p < q < ta.len() implies compare_spec(ta[p], ta[q])
            != Ordering::Less by {
            assert(ta[p] == a[p + 1] && ta[q] == a[q + 1]);
        }
    }
    assert(sorted_desc(tb)) by {
        assert forall|p: int, q: int| 0 <= p < q < tb.len() implies compare_spec(tb[p], tb[q])
            != Ordering::Less by {
            assert(tb[p] == b[p + 1] && tb[q] == b[q + 1]);
        }
    }
    lemma_sorted_same_ranks_equal(ta, tb);
}

/// The first identifier of a non-empty sequence heads its own rank.
proof fn lemma_first_in_rank(s: Seq<Seq<char>>)
    requires
        s.len() > 0,
    ensures
        s.filter(same_rank(s[0])).len() > 0,
{
    lemma_self_equal(s[0]);
    let t = s.drop_first();
    assert(s =~= seq![s[0]] + t);
    t.lemma_filter_prepend(s[0], same_rank(s[0]));
}

/// A stable newest-first order of a sequence is unique: the sort's contract,
/// and every contract stated through `newest_first_of`, fixes one result.
pub proof fn lemma_newest_first_unique(a: Seq<Seq<char>>, b: Seq<Seq<char>>, input: Seq<Seq<char>>)
    requires
        newest_first_of(a, input),
        newest_first_of(b, input),
    ensures
        a == b,
{
    assert forall|v: Seq<char>| #[trigger] a.filter(same_rank(v)) == b.filter(same_rank(v)) by {
        assert(a.filter(same_rank(v)) == input.filter(same_rank(v)));
        assert(b.filter(same_rank(v)) == input.filter(same_rank(v)));
    }
    lemma_sorted_same_ranks_equal(a, b);
}

/// Sequences holding the same identifiers equally often keep equally many under
/// any test.
pub proof fn lemma_filter_len_of_permutation(
    a: Seq<Seq<char>>,
    b: Seq<Seq<char>>,
    p: spec_fn(Seq<char>) -> bool,
)
    requires
        a.to_multiset() == b.to_multiset(),
    ensures
        a.filter(p).len() == b.filter(p).len(),
{
    broadcast use vstd::seq_lib::group_to_multiset_ensures;
    lemma_filter_multiset(a, p);
    lemma_filter_multiset(b, p);
    assert(a.filter(p).to_multiset().len() == a.filter(p).len());
    assert(b.filter(p).to_multiset().len() == b.filter(p).len());
}

proof fn lemma_filter_multiset(s: Seq<Seq<char>>, p: spec_fn(Seq<char>) -> bool)
    ensures
        s.filter(p).to_multiset() == s.to_multiset().filter(p),
    decreases s.len(),
{
    broadcast use vstd::seq_lib::group_to_multiset_ensures;
    broadcast use vstd::multiset::axiom_filter_count;
    if s.len() == 0 {
        assert(s.filter(p) =~= Seq::<Seq<char>>::empty()) by {
            reveal(Seq::filter);
        }
        assert(s.filter(p).to_multiset() =~= s.to_multiset().filter(p));
    } else {
        let pre = s.drop_last();
        lemma_filter_multiset(pre, p);
        assert(s =~= pre.push(s.last()));
        pre.lemma_filter_push(s.last(), p);
        assert(s.filter(p).to_multiset() =~= s.to_multiset().filter(p));
    }
}

} // verus!
