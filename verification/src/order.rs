//! Lexicographic order and stable sorting by key.
use vstd::prelude::*;
use crate::strings::chars_of;

verus! {

/// Dictionary order on lists of numbers: the first difference decides, and a prefix comes first.
pub open spec fn lex_lt(a: Seq<i64>, b: Seq<i64>) -> bool
    decreases a.len(),
{
    if b.len() == 0 {
        false
    } else if a.len() == 0 {
        true
    } else if a[0] == b[0] {
        lex_lt(a.skip(1), b.skip(1))
    } else {
        a[0] < b[0]
    }
}

/// The code points of a text: text sorts as these lists do.
pub open spec fn codes(s: Seq<char>) -> Seq<i64> {
    Seq::new(s.len(), |i: int| s[i] as u32 as i64)
}

/// Dictionary order on texts.
pub open spec fn text_lt(a: Seq<char>, b: Seq<char>) -> bool {
    lex_lt(codes(a), codes(b))
}

pub proof fn lemma_lex_irreflexive(a: Seq<i64>)
    ensures
        !lex_lt(a, a),
    decreases a.len(),
{
    if a.len() > 0 {
        lemma_lex_irreflexive(a.skip(1));
    }
}

pub proof fn lemma_lex_transitive(a: Seq<i64>, b: Seq<i64>, c: Seq<i64>)
    requires
        lex_lt(a, b),
        lex_lt(b, c),
    ensures
        lex_lt(a, c),
    decreases a.len(),
{
    if a.len() > 0 && a[0] == b[0] && b[0] == c[0] {
        lemma_lex_transitive(a.skip(1), b.skip(1), c.skip(1));
    }
}

/// Of two different lists one comes first.
pub proof fn lemma_lex_total(a: Seq<i64>, b: Seq<i64>)
    ensures
        lex_lt(a, b) || lex_lt(b, a) || a == b,
    decreases a.len(),
{
    if a.len() == 0 {
        if b.len() == 0 {
            assert(a =~= b);
        }
    } else if b.len() > 0 && a[0] == b[0] {
        lemma_lex_total(a.skip(1), b.skip(1));
        if a.skip(1) == b.skip(1) {
            assert(a =~= b) by {
                assert(a.skip(1).len() == b.skip(1).len());
                assert forall|i: int| 0 <= i < a.len() implies a[i] == b[i] by {
                    if i > 0 {
                        assert(a.skip(1)[i - 1] == b.skip(1)[i - 1]);
                    }
                }
            }
        }
    }
}

pub proof fn lemma_codes_injective(a: Seq<char>, b: Seq<char>)
    requires
        codes(a) == codes(b),
    ensures
        a == b,
{
    assert(a.len() == codes(a).len());
    assert(b.len() == codes(b).len());
    assert forall|i: int| 0 <= i < a.len() implies a[i] == b[i] by {
        assert(codes(a)[i] == codes(b)[i]);
        let x = a[i];
        let y = b[i];
        assert(codes(a)[i] == x as u32 as i64);
        assert(codes(b)[i] == y as u32 as i64);
        vstd::utf8::char_u32_cast(x, x as u32);
        vstd::utf8::char_u32_cast(y, x as u32);
    }
    assert(a =~= b);
}

pub fn codes_of(s: &[char]) -> (r: Vec<i64>)
    ensures
        r@ == codes(s@),
{
    let mut out: Vec<i64> = Vec::new();
    let mut i: usize = 0;
    while i < s.len()
        invariant
            i <= s@.len(),
            out@.len() == i,
            forall|j: int| 0 <= j < i ==> out@[j] == codes(s@)[j],
        decreases s@.len() - i,
    {
        let c = s[i];
        proof {
            vstd::utf8::char_is_scalar(c);
        }
        let u: u32 = c as u32;
        out.push(u as i64);
        i = i + 1;
    }
    assert(out@ =~= codes(s@));
    out
}

/// Whether `a` comes before `b`.
pub fn is_before(a: &[i64], b: &[i64]) -> (r: bool)
    ensures
        r == lex_lt(a@, b@),
{
    let mut i: usize = 0;
    assert(a@.skip(0) =~= a@);
    assert(b@.skip(0) =~= b@);
    while i < a.len() && i < b.len() && a[i] == b[i]
        invariant
            i <= a@.len(),
            i <= b@.len(),
            lex_lt(a@, b@) == lex_lt(a@.skip(i as int), b@.skip(i as int)),
        decreases a@.len() - i,
    {
        assert(a@.skip(i as int).skip(1) =~= a@.skip(i as int + 1));
        assert(b@.skip(i as int).skip(1) =~= b@.skip(i as int + 1));
        i = i + 1;
    }
    if i >= b.len() {
        false
    } else if i >= a.len() {
        true
    } else {
        a[i] < b[i]
    }
}

/// The views of a list of keys.
pub open spec fn key_views(v: Seq<Vec<i64>>) -> Seq<Seq<i64>> {
    Seq::new(v.len(), |i: int| v[i]@)
}

/// Position `a` comes before position `b` in a stable sort: by key, and by place where keys are equal.
pub open spec fn sorts_before(keys: Seq<Seq<i64>>, a: int, b: int) -> bool {
    lex_lt(keys[a], keys[b]) || (keys[a] == keys[b] && a < b)
}

/// `p` lists positions from `lo` up to `hi`, in the order of a stable sort.
pub open spec fn in_order(keys: Seq<Seq<i64>>, p: Seq<usize>, lo: int, hi: int) -> bool {
    &&& p.len() == hi - lo
    &&& forall|i: int| 0 <= i < p.len() ==> lo <= #[trigger] p[i] < hi
    &&& forall|i: int, j: int|
        0 <= i < j < p.len() ==> sorts_before(keys, #[trigger] p[i] as int, #[trigger] p[j] as int)
}

/// `p` lists every position once, in the order of a stable sort by key.
pub open spec fn stable_order(keys: Seq<Seq<i64>>, p: Seq<usize>) -> bool {
    in_order(keys, p, 0, keys.len() as int)
}

proof fn lemma_sorts_before_transitive(keys: Seq<Seq<i64>>, a: int, b: int, c: int)
    requires
        sorts_before(keys, a, b),
        sorts_before(keys, b, c),
    ensures
        sorts_before(keys, a, c),
{
    if lex_lt(keys[a], keys[b]) && lex_lt(keys[b], keys[c]) {
        lemma_lex_transitive(keys[a], keys[b], keys[c]);
    }
}

fn merge(keys: &Vec<Vec<i64>>, left: Vec<usize>, right: Vec<usize>, lo: usize, mid: usize, hi: usize) -> (r:
    Vec<usize>)
    requires
        lo <= mid <= hi <= keys@.len(),
        in_order(key_views(keys@), left@, lo as int, mid as int),
        in_order(key_views(keys@), right@, mid as int, hi as int),
    ensures
        in_order(key_views(keys@), r@, lo as int, hi as int),
{
    let ghost ks = key_views(keys@);
    let mut out: Vec<usize> = Vec::new();
    let mut i: usize = 0;
    let mut j: usize = 0;
    while i < left.len() || j < right.len()
        invariant
            lo <= mid <= hi <= keys@.len(),
            ks == key_views(keys@),
            in_order(ks, left@, lo as int, mid as int),
            in_order(ks, right@, mid as int, hi as int),
            i <= left@.len(),
            j <= right@.len(),
            out@.len() == i + j,
            forall|x: int| 0 <= x < out@.len() ==> lo <= #[trigger] out@[x] < hi,
            forall|x: int, y: int|
                0 <= x < y < out@.len() ==> sorts_before(
                    ks,
                    #[trigger] out@[x] as int,
                    #[trigger] out@[y] as int,
                ),
            forall|x: int, y: int|
                0 <= x < out@.len() && i <= y < left@.len() ==> sorts_before(
                    ks,
                    #[trigger] out@[x] as int,
                    #[trigger] left@[y] as int,
                ),
            forall|x: int, y: int|
                0 <= x < out@.len() && j <= y < right@.len() ==> sorts_before(
                    ks,
                    #[trigger] out@[x] as int,
                    #[trigger] right@[y] as int,
                ),
        decreases left@.len() - i + right@.len() - j,
    {
        let take_left = if i >= left.len() {
            false
        } else if j >= right.len() {
            true
        } else {
            !is_before(keys[right[j]].as_slice(), keys[left[i]].as_slice())
        };
        if take_left {
            let x = left[i];
            proof {
                if j < right@.len() {
                    let r0 = right@[j as int];
                    assert(ks[x as int] == keys@[x as int]@);
                    assert(ks[r0 as int] == keys@[r0 as int]@);
                    lemma_lex_total(ks[x as int], ks[r0 as int]);
                    assert(sorts_before(ks, x as int, r0 as int));
                    assert forall|y: int| j <= y < right@.len() implies sorts_before(
                        ks,
                        x as int,
                        #[trigger] right@[y] as int,
                    ) by {
                        if y > j {
                            lemma_sorts_before_transitive(
                                ks,
                                x as int,
                                r0 as int,
                                right@[y] as int,
                            );
                        }
                    }
                }
            }
            out.push(x);
            i = i + 1;
        } else {
            let x = right[j];
            proof {
                if i < left@.len() {
                    let l0 = left@[i as int];
                    assert(ks[x as int] == keys@[x as int]@);
                    assert(ks[l0 as int] == keys@[l0 as int]@);
                    assert(sorts_before(ks, x as int, l0 as int));
                    assert forall|y: int| i <= y < left@.len() implies sorts_before(
                        ks,
                        x as int,
                        #[trigger] left@[y] as int,
                    ) by {
                        if y > i {
                            lemma_sorts_before_transitive(ks, x as int, l0 as int, left@[y] as int);
                        }
                    }
                }
            }
            out.push(x);
            j = j + 1;
        }
    }
    out
}

fn sort_range(keys: &Vec<Vec<i64>>, lo: usize, hi: usize) -> (r: Vec<usize>)
    requires
        lo <= hi <= keys@.len(),
    ensures
        in_order(key_views(keys@), r@, lo as int, hi as int),
    decreases hi - lo,
{
    if hi - lo == 0 {
        Vec::new()
    } else if hi - lo == 1 {
        let mut r: Vec<usize> = Vec::new();
        r.push(lo);
        r
    } else {
        let mid: usize = lo + (hi - lo) / 2;
        let left = sort_range(keys, lo, mid);
        let right = sort_range(keys, mid, hi);
        merge(keys, left, right, lo, mid, hi)
    }
}

/// The positions of the keys in the order of a stable sort.
pub fn stable_sort(keys: &Vec<Vec<i64>>) -> (r: Vec<usize>)
    ensures
        stable_order(key_views(keys@), r@),
{
    sort_range(keys, 0, keys.len())
}

/// A stable order lists every position.
pub proof fn stable_order_is_complete(keys: Seq<Seq<i64>>, p: Seq<usize>, k: int)
    requires
        stable_order(keys, p),
        0 <= k < keys.len(),
    ensures
        exists|i: int| 0 <= i < p.len() && p[i] == k,
{
    let ints = Seq::new(p.len(), |i: int| p[i] as int);
    assert forall|i: int, j: int| 0 <= i < ints.len() && 0 <= j < ints.len() && i != j implies ints[i]
        != ints[j] by {
        if i < j {
            assert(sorts_before(keys, p[i] as int, p[j] as int));
            lemma_lex_irreflexive(keys[p[i] as int]);
        } else {
            assert(sorts_before(keys, p[j] as int, p[i] as int));
            lemma_lex_irreflexive(keys[p[j] as int]);
        }
    }
    assert(ints.no_duplicates());
    ints.unique_seq_to_set();
    let range = vstd::set_lib::set_int_range(0, keys.len() as int);
    vstd::set_lib::lemma_int_range(0, keys.len() as int);
    assert(ints.to_set().subset_of(range));
    vstd::set_lib::lemma_subset_equality(ints.to_set(), range);
    assert(ints.to_set().contains(k));
    let i = choose|i: int| 0 <= i < ints.len() && ints[i] == k;
    assert(p[i] == k);
}

/// There is one stable order only.
pub proof fn stable_order_is_unique(keys: Seq<Seq<i64>>, p: Seq<usize>, q: Seq<usize>)
    requires
        stable_order(keys, p),
        stable_order(keys, q),
    ensures
        p == q,
{
    assert forall|i: int| 0 <= i < p.len() implies p[i] == q[i] by {
        lemma_orders_agree_up_to(keys, p, q, i);
    }
    assert(p =~= q);
}

proof fn lemma_orders_agree_up_to(keys: Seq<Seq<i64>>, p: Seq<usize>, q: Seq<usize>, i: int)
    requires
        stable_order(keys, p),
        stable_order(keys, q),
        0 <= i < p.len(),
    ensures
        forall|k: int| 0 <= k <= i ==> p[k] == q[k],
    decreases i,
{
    if i > 0 {
        lemma_orders_agree_up_to(keys, p, q, i - 1);
    }
    if p[i] != q[i] {
        stable_order_is_complete(keys, q, p[i] as int);
        stable_order_is_complete(keys, p, q[i] as int);
        let a = choose|a: int| 0 <= a < q.len() && q[a] == p[i] as int;
        let b = choose|b: int| 0 <= b < p.len() && p[b] == q[i] as int;
        if a < i {
            assert(p[a] == q[a]);
            assert(sorts_before(keys, p[a] as int, p[i] as int));
            lemma_lex_irreflexive(keys[p[i] as int]);
        } else if b < i {
            assert(q[b] == p[b]);
            assert(sorts_before(keys, q[b] as int, q[i] as int));
            lemma_lex_irreflexive(keys[q[i] as int]);
        } else {
            assert(sorts_before(keys, q[i] as int, q[a] as int));
            assert(sorts_before(keys, p[i] as int, p[b] as int));
            lemma_sorts_before_transitive(keys, p[i] as int, q[i] as int, p[i] as int);
            lemma_lex_irreflexive(keys[p[i] as int]);
        }
    }
}

pub proof fn lemma_text_irreflexive(a: Seq<char>)
    ensures
        !text_lt(a, a),
{
    lemma_lex_irreflexive(codes(a));
}

pub proof fn lemma_text_transitive(a: Seq<char>, b: Seq<char>, c: Seq<char>)
    requires
        text_lt(a, b),
        text_lt(b, c),
    ensures
        text_lt(a, c),
{
    lemma_lex_transitive(codes(a), codes(b), codes(c));
}

pub proof fn lemma_text_total(a: Seq<char>, b: Seq<char>)
    ensures
        text_lt(a, b) || text_lt(b, a) || a == b,
{
    lemma_lex_total(codes(a), codes(b));
    if codes(a) == codes(b) {
        lemma_codes_injective(a, b);
    }
}

/// Whether `a` comes before `b`.
pub fn text_before(a: &str, b: &str) -> (r: bool)
    ensures
        r == text_lt(a@, b@),
{
    let x = codes_of(chars_of(a).as_slice());
    let y = codes_of(chars_of(b).as_slice());
    is_before(x.as_slice(), y.as_slice())
}

proof fn lemma_lex_prefix(p: Seq<i64>, a: Seq<i64>, b: Seq<i64>)
    ensures
        lex_lt(p + a, p + b) == lex_lt(a, b),
    decreases p.len(),
{
    if p.len() == 0 {
        assert(p + a =~= a);
        assert(p + b =~= b);
    } else {
        assert((p + a).skip(1) =~= p.skip(1) + a);
        assert((p + b).skip(1) =~= p.skip(1) + b);
        lemma_lex_prefix(p.skip(1), a, b);
    }
}

/// A common beginning does not change the order.
pub proof fn lemma_text_prefix(p: Seq<char>, a: Seq<char>, b: Seq<char>)
    ensures
        text_lt(p + a, p + b) == text_lt(a, b),
{
    assert(codes(p + a) =~= codes(p) + codes(a));
    assert(codes(p + b) =~= codes(p) + codes(b));
    lemma_lex_prefix(codes(p), codes(a), codes(b));
}

/// Of two stretches of one length the first difference decides, whatever follows.
proof fn lemma_lex_block(a: Seq<i64>, b: Seq<i64>, x: Seq<i64>, y: Seq<i64>)
    requires
        a.len() == b.len(),
        lex_lt(a, b),
    ensures
        lex_lt(a + x, b + y),
    decreases a.len(),
{
    assert((a + x).skip(1) =~= a.skip(1) + x);
    assert((b + y).skip(1) =~= b.skip(1) + y);
    if a[0] == b[0] {
        lemma_lex_block(a.skip(1), b.skip(1), x, y);
    }
}

/// Of two beginnings of one length the first difference decides, whatever follows.
pub proof fn lemma_text_block(a: Seq<char>, b: Seq<char>, x: Seq<char>, y: Seq<char>)
    requires
        a.len() == b.len(),
        text_lt(a, b),
    ensures
        text_lt(a + x, b + y),
{
    assert(codes(a + x) =~= codes(a) + codes(x));
    assert(codes(b + y) =~= codes(b) + codes(y));
    lemma_lex_block(codes(a), codes(b), codes(x), codes(y));
}

} // verus!
