//! Comparing two tables into a plan of actions.
//!
//! - mirror: the target is brought level with the source. What is gone from the source is deleted,
//!   and a file that only changed its place is moved instead of deleted and copied.
//! - enrich: the target only gains. Missing files are added and older ones updated; nothing is
//!   deleted or moved.
//! - sync: both ways. With the table of the last sync, a deletion can be told from an addition;
//!   without it nothing is deleted, and differences are conflicts.
//!
//! Files are matched by comparison key and keep their own spelling on each side.
use vstd::prelude::*;
use crate::foundation::names::{device_base, device_name, is_device};
use crate::foundation::path::{file_name, file_name_of};
use crate::foundation::text::{debug_char, debug_of_char, key_of, norm_key};
use crate::foundation::time::{clock_shows, now_ms};
use crate::order::{
    codes, codes_of, is_before, key_views, lemma_codes_injective, lemma_lex_irreflexive,
    lemma_lex_total, lemma_lex_transitive, lex_lt, sorts_before, stable_order,
    stable_order_is_complete, stable_sort, text_lt,
};
use crate::strings::{char_lists, chars_of, same, split, split_chars, text_of};
use crate::table::{
    copy_opt, entry_models, opt_text, Entry, EntryKind, EntryModel, Snapshot, SCHEMA,
};

verus! {

/// The comparison key of an entry.
pub open spec fn entry_key(e: EntryModel, ci: bool) -> Seq<char> {
    key_of(e.path, ci)
}

/// Entry `i` is of the given kind, and no earlier one of that kind has its key.
pub open spec fn is_first(es: Seq<EntryModel>, kind: EntryKind, ci: bool, i: int) -> bool {
    &&& 0 <= i < es.len()
    &&& es[i].kind == kind
    &&& forall|j: int|
        0 <= j < i && (#[trigger] es[j]).kind == kind ==> entry_key(es[j], ci) != entry_key(es[i], ci)
}

/// `t` lists the first entries of the given kind, each once, in the order of their keys.
pub open spec fn is_table(es: Seq<EntryModel>, kind: EntryKind, ci: bool, t: Seq<int>) -> bool {
    &&& forall|x: int| 0 <= x < t.len() ==> is_first(es, kind, ci, #[trigger] t[x])
    &&& forall|x: int, y: int|
        0 <= x < y < t.len() ==> text_lt(
            entry_key(es[#[trigger] t[x]], ci),
            entry_key(es[#[trigger] t[y]], ci),
        )
    &&& forall|i: int| #[trigger] is_first(es, kind, ci, i) ==> t.contains(i)
}

/// The first entries of the given kind in the order of their keys.
pub open spec fn table_of(es: Seq<EntryModel>, kind: EntryKind, ci: bool) -> Seq<int> {
    choose|t: Seq<int>| is_table(es, kind, ci, t)
}

/// The rows that comparing works on.
pub open spec fn rows_of(es: Seq<EntryModel>, kind: EntryKind, ci: bool) -> Seq<EntryModel> {
    Seq::new(table_of(es, kind, ci).len(), |x: int| es[table_of(es, kind, ci)[x]])
}

/// The entry that stands for a key: the first with it.
pub open spec fn entry_for(es: Seq<EntryModel>, kind: EntryKind, ci: bool, key: Seq<char>) -> Option<
    EntryModel,
> {
    if exists|i: int| #[trigger] is_first(es, kind, ci, i) && entry_key(es[i], ci) == key {
        let i = choose|i: int| #[trigger]
            is_first(es, kind, ci, i) && entry_key(es[i], ci) == key;
        Some(es[i])
    } else {
        None
    }
}

proof fn lemma_first_is_unique(es: Seq<EntryModel>, kind: EntryKind, ci: bool, i: int, j: int)
    requires
        is_first(es, kind, ci, i),
        is_first(es, kind, ci, j),
        entry_key(es[i], ci) == entry_key(es[j], ci),
    ensures
        i == j,
{
    if i < j {
        assert(es[i].kind == kind);
    } else if j < i {
        assert(es[j].kind == kind);
    }
}

/// There is one such list only.
pub proof fn table_is_unique(
    es: Seq<EntryModel>,
    kind: EntryKind,
    ci: bool,
    t: Seq<int>,
    u: Seq<int>,
)
    requires
        is_table(es, kind, ci, t),
        is_table(es, kind, ci, u),
    ensures
        t == u,
{
    lemma_table_len(es, kind, ci, t, u);
    lemma_table_len(es, kind, ci, u, t);
    assert forall|x: int| 0 <= x < t.len() implies t[x] == u[x] by {
        lemma_tables_agree_up_to(es, kind, ci, t, u, x);
    }
    assert(t =~= u);
}

proof fn lemma_table_no_duplicates(es: Seq<EntryModel>, kind: EntryKind, ci: bool, t: Seq<int>)
    requires
        is_table(es, kind, ci, t),
    ensures
        t.no_duplicates(),
{
    assert forall|x: int, y: int| 0 <= x < t.len() && 0 <= y < t.len() && x != y implies t[x]
        != t[y] by {
        if x < y {
            assert(text_lt(entry_key(es[t[x]], ci), entry_key(es[t[y]], ci)));
        } else {
            assert(text_lt(entry_key(es[t[y]], ci), entry_key(es[t[x]], ci)));
        }
        lemma_lex_irreflexive(codes(entry_key(es[t[x]], ci)));
    }
}

proof fn lemma_table_len(
    es: Seq<EntryModel>,
    kind: EntryKind,
    ci: bool,
    t: Seq<int>,
    u: Seq<int>,
)
    requires
        is_table(es, kind, ci, t),
        is_table(es, kind, ci, u),
    ensures
        t.len() <= u.len(),
{
    lemma_table_no_duplicates(es, kind, ci, t);
    lemma_table_no_duplicates(es, kind, ci, u);
    t.unique_seq_to_set();
    u.unique_seq_to_set();
    assert forall|i: int| t.to_set().contains(i) implies u.to_set().contains(i) by {
        let x = choose|x: int| 0 <= x < t.len() && t[x] == i;
        assert(is_first(es, kind, ci, t[x]));
    }
    vstd::seq_lib::seq_to_set_is_finite(u);
    vstd::set_lib::lemma_len_subset(t.to_set(), u.to_set());
}

proof fn lemma_tables_agree_up_to(
    es: Seq<EntryModel>,
    kind: EntryKind,
    ci: bool,
    t: Seq<int>,
    u: Seq<int>,
    x: int,
)
    requires
        is_table(es, kind, ci, t),
        is_table(es, kind, ci, u),
        t.len() == u.len(),
        0 <= x < t.len(),
    ensures
        forall|k: int| 0 <= k <= x ==> t[k] == u[k],
    decreases x,
{
    if x > 0 {
        lemma_tables_agree_up_to(es, kind, ci, t, u, x - 1);
    }
    if t[x] != u[x] {
        lemma_table_no_duplicates(es, kind, ci, t);
        lemma_table_no_duplicates(es, kind, ci, u);
        assert(is_first(es, kind, ci, t[x]));
        assert(is_first(es, kind, ci, u[x]));
        assert(u.contains(t[x]));
        assert(t.contains(u[x]));
        let a = choose|a: int| 0 <= a < u.len() && u[a] == t[x];
        let b = choose|b: int| 0 <= b < t.len() && t[b] == u[x];
        if a < x {
            assert(t[a] == u[a]);
        } else if b < x {
            assert(t[b] == u[b]);
        } else {
            let kt = codes(entry_key(es[t[x]], ci));
            let ku = codes(entry_key(es[u[x]], ci));
            assert(text_lt(entry_key(es[u[x]], ci), entry_key(es[u[a]], ci)));
            assert(text_lt(entry_key(es[t[x]], ci), entry_key(es[t[b]], ci)));
            lemma_lex_transitive(kt, ku, kt);
            lemma_lex_irreflexive(kt);
        }
    }
}

/// The positions of the entries of a kind, with the codes of their keys.
struct Keyed {
    at: Vec<usize>,
    keys: Vec<Vec<i64>>,
}

/// `at` lists positions of entries of the kind in rising order, `keys` the codes of their keys.
spec fn keyed_upto(
    es: Seq<EntryModel>,
    kind: EntryKind,
    ci: bool,
    k: Keyed,
    n: int,
) -> bool {
    &&& k.at@.len() == k.keys@.len()
    &&& forall|x: int|
        0 <= x < k.at@.len() ==> {
            &&& 0 <= #[trigger] k.at@[x] < n
            &&& es[k.at@[x] as int].kind == kind
            &&& k.keys@[x]@ == codes(entry_key(es[k.at@[x] as int], ci))
        }
    &&& forall|x: int, y: int| 0 <= x < y < k.at@.len() ==> #[trigger] k.at@[x] < #[trigger] k.at@[y]
    &&& forall|i: int|
        0 <= i < n && (#[trigger] es[i]).kind == kind ==> exists|x: int|
            0 <= x < k.at@.len() && #[trigger] k.at@[x] == i
}

fn keys_of_kind(entries: &Vec<Entry>, kind: EntryKind, ci: bool) -> (r: Keyed)
    ensures
        keyed_upto(entry_models(entries@), kind, ci, r, entries@.len() as int),
{
    let ghost es = entry_models(entries@);
    let mut k = Keyed { at: Vec::new(), keys: Vec::new() };
    let mut i: usize = 0;
    while i < entries.len()
        invariant
            i <= entries@.len(),
            es == entry_models(entries@),
            keyed_upto(es, kind, ci, k, i as int),
        decreases entries@.len() - i,
    {
        let ghost before = k;
        if entries[i].kind == kind {
            let key = norm_key(entries[i].path.as_str(), ci);
            let c = chars_of(key.as_str());
            let code = codes_of(c.as_slice());
            k.at.push(i);
            k.keys.push(code);
            proof {
                assert(es[i as int] == entries@[i as int]@);
                assert forall|j: int| 0 <= j < i + 1 && (#[trigger] es[j]).kind == kind implies exists|
                    x: int,
                |
                    0 <= x < k.at@.len() && #[trigger] k.at@[x] == j by {
                    if j < i {
                        let x = choose|x: int|
                            0 <= x < before.at@.len() && #[trigger] before.at@[x] == j;
                        assert(k.at@[x] == j);
                    } else {
                        assert(k.at@[before.at@.len() as int] == j);
                    }
                }
            }
        } else {
            proof {
                assert(es[i as int] == entries@[i as int]@);
            }
        }
        i = i + 1;
    }
    k
}

/// The rows of one side, ready for looking a key up.
struct KeyTable {
    at: Vec<usize>,
    keys: Vec<Vec<i64>>,
    /// Positions of the entries whose key an earlier one has, in the order of the table.
    dups: Vec<usize>,
}

/// The positions in a list, as integers.
pub open spec fn ints(v: Seq<usize>) -> Seq<int> {
    Seq::new(v.len(), |i: int| v[i] as int)
}

/// Entry `i` is of the kind, and an earlier one of the kind has its key.
pub open spec fn is_dup(es: Seq<EntryModel>, kind: EntryKind, ci: bool, i: int) -> bool {
    0 <= i < es.len() && es[i].kind == kind && !is_first(es, kind, ci, i)
}

/// The positions of the twins among the first `n` entries, in order.
pub open spec fn dups_upto(es: Seq<EntryModel>, kind: EntryKind, ci: bool, n: int) -> Seq<int>
    decreases n,
{
    if n <= 0 {
        Seq::empty()
    } else if is_dup(es, kind, ci, n - 1) {
        dups_upto(es, kind, ci, n - 1).push(n - 1)
    } else {
        dups_upto(es, kind, ci, n - 1)
    }
}

/// The entries whose key an earlier entry has, in the order of the table.
pub open spec fn dups_of(es: Seq<EntryModel>, kind: EntryKind, ci: bool) -> Seq<int> {
    dups_upto(es, kind, ci, es.len() as int)
}

impl KeyTable {
    spec fn describes(&self, es: Seq<EntryModel>, kind: EntryKind, ci: bool) -> bool {
        &&& is_table(es, kind, ci, ints(self.at@))
        &&& self.at@.len() == self.keys@.len()
        &&& forall|x: int|
            0 <= x < self.at@.len() ==> (#[trigger] self.keys@[x])@ == codes(
                entry_key(es[self.at@[x] as int], ci),
            )
        &&& ints(self.dups@) == dups_of(es, kind, ci)
    }

    spec fn rows(&self) -> Seq<usize> {
        self.at@
    }

    spec fn twins(&self) -> Seq<usize> {
        self.dups@
    }

    proof fn lemma_describes(&self, es: Seq<EntryModel>, kind: EntryKind, ci: bool)
        requires
            self.describes(es, kind, ci),
        ensures
            ints(self.rows()) == table_of(es, kind, ci),
            self.rows().len() == rows_of(es, kind, ci).len(),
            forall|x: int|
                0 <= x < self.rows().len() ==> {
                    &&& 0 <= #[trigger] self.rows()[x] < es.len()
                    &&& es[self.rows()[x] as int] == rows_of(es, kind, ci)[x]
                },
            ints(self.twins()) == dups_of(es, kind, ci),
            forall|x: int| 0 <= x < self.twins().len() ==> 0 <= #[trigger] self.twins()[x] < es.len(),
    {
        let t = ints(self.at@);
        table_is_unique(es, kind, ci, t, table_of(es, kind, ci));
        assert forall|x: int| 0 <= x < self.rows().len() implies {
            &&& 0 <= #[trigger] self.rows()[x] < es.len()
            &&& es[self.rows()[x] as int] == rows_of(es, kind, ci)[x]
        } by {
            assert(t[x] == self.at@[x] as int);
            assert(is_first(es, kind, ci, t[x]));
        }
        lemma_dups_in_range(es, kind, ci, es.len() as int);
        assert forall|x: int| 0 <= x < self.twins().len() implies 0 <= #[trigger] self.twins()[x]
            < es.len() by {
            assert(ints(self.dups@)[x] == self.dups@[x] as int);
        }
    }

    fn len(&self) -> (r: usize)
        ensures
            r == self.rows().len(),
    {
        self.at.len()
    }

    fn row(&self, x: usize) -> (r: usize)
        requires
            x < self.rows().len(),
        ensures
            r == self.rows()[x as int],
    {
        self.at[x]
    }

    fn twin_count(&self) -> (r: usize)
        ensures
            r == self.twins().len(),
    {
        self.dups.len()
    }

    fn twin(&self, x: usize) -> (r: usize)
        requires
            x < self.twins().len(),
        ensures
            r == self.twins()[x as int],
    {
        self.dups[x]
    }

    /// Looks the entry of a path's key up.
    fn get(
        &self,
        path: &str,
        Ghost(es): Ghost<Seq<EntryModel>>,
        Ghost(kind): Ghost<EntryKind>,
        ci: bool,
    ) -> (r: Option<usize>)
        requires
            self.describes(es, kind, ci),
        ensures
            match r {
                Some(i) => i < es.len() && entry_for(es, kind, ci, key_of(path@, ci)) == Some(
                    es[i as int],
                ),
                None => entry_for(es, kind, ci, key_of(path@, ci)) is None,
            },
    {
        let key = norm_key(path, ci);
        let c = chars_of(key.as_str());
        let code = codes_of(c.as_slice());
        let ghost want = key_of(path@, ci);
        let mut lo: usize = 0;
        let mut hi: usize = self.keys.len();
        while lo < hi
            invariant
                self.describes(es, kind, ci),
                lo <= hi <= self.keys@.len(),
                code@ == codes(want),
                want == key_of(path@, ci),
                forall|x: int| 0 <= x < lo ==> lex_lt((#[trigger] self.keys@[x])@, code@),
                forall|x: int|
                    hi <= x < self.keys@.len() ==> lex_lt(code@, (#[trigger] self.keys@[x])@),
            decreases hi - lo,
        {
            let mid: usize = lo + (hi - lo) / 2;
            let ghost t = ints(self.at@);
            if is_before(self.keys[mid].as_slice(), code.as_slice()) {
                proof {
                    assert forall|x: int| 0 <= x < mid + 1 implies lex_lt(
                        (#[trigger] self.keys@[x])@,
                        code@,
                    ) by {
                        if x < mid {
                            assert(text_lt(entry_key(es[t[x]], ci), entry_key(es[t[mid as int]], ci)));
                            lemma_lex_transitive(
                                self.keys@[x]@,
                                self.keys@[mid as int]@,
                                code@,
                            );
                        }
                    }
                }
                lo = mid + 1;
            } else if is_before(code.as_slice(), self.keys[mid].as_slice()) {
                proof {
                    assert forall|x: int| mid <= x < self.keys@.len() implies lex_lt(
                        code@,
                        (#[trigger] self.keys@[x])@,
                    ) by {
                        if x > mid {
                            assert(text_lt(entry_key(es[t[mid as int]], ci), entry_key(es[t[x]], ci)));
                            lemma_lex_transitive(
                                code@,
                                self.keys@[mid as int]@,
                                self.keys@[x]@,
                            );
                        }
                    }
                }
                hi = mid;
            } else {
                let i = self.at[mid];
                proof {
                    lemma_lex_total(self.keys@[mid as int]@, code@);
                    assert(t[mid as int] == i as int);
                    assert(is_first(es, kind, ci, t[mid as int]));
                    assert(self.keys@[mid as int]@ == codes(entry_key(es[self.at@[mid as int] as int], ci)));
                    lemma_codes_injective(entry_key(es[i as int], ci), want);
                    let j = choose|j: int| #[trigger]
                        is_first(es, kind, ci, j) && entry_key(es[j], ci) == want;
                    lemma_first_is_unique(es, kind, ci, i as int, j);
                }
                return Some(i);
            }
        }
        proof {
            if exists|i: int| #[trigger] is_first(es, kind, ci, i) && entry_key(es[i], ci) == want {
                let i = choose|i: int| #[trigger]
                    is_first(es, kind, ci, i) && entry_key(es[i], ci) == want;
                let t = ints(self.at@);
                assert(t.contains(i));
                let x = choose|x: int| 0 <= x < t.len() && t[x] == i;
                assert(self.keys@[x]@ == code@);
                lemma_lex_irreflexive(code@);
            }
        }
        None
    }
}

proof fn lemma_dups_in_range(es: Seq<EntryModel>, kind: EntryKind, ci: bool, n: int)
    requires
        0 <= n <= es.len(),
    ensures
        forall|x: int|
            0 <= x < dups_upto(es, kind, ci, n).len() ==> 0 <= #[trigger] dups_upto(es, kind, ci, n)[x]
                < n,
    decreases n,
{
    if n > 0 {
        lemma_dups_in_range(es, kind, ci, n - 1);
        let before = dups_upto(es, kind, ci, n - 1);
        let now = dups_upto(es, kind, ci, n);
        assert forall|x: int| 0 <= x < now.len() implies 0 <= #[trigger] now[x] < n by {
            if x < before.len() {
                assert(now[x] == before[x]);
            }
        }
    }
}

/// The keys of a kind in order; twins keep the first.
fn map_of(entries: &Vec<Entry>, kind: EntryKind, ci: bool) -> (r: KeyTable)
    ensures
        r.describes(entry_models(entries@), kind, ci),
{
    let ghost es = entry_models(entries@);
    let k = keys_of_kind(entries, kind, ci);
    let p = stable_sort(&k.keys);
    let ghost ks = key_views(k.keys@);
    let n = k.at.len();
    let mut head: Vec<bool> = Vec::new();
    let mut z: usize = 0;
    while z < n
        invariant
            z <= n,
            head@.len() == z,
        decreases n - z,
    {
        head.push(false);
        z = z + 1;
    }
    let mut at: Vec<usize> = Vec::new();
    let mut keys: Vec<Vec<i64>> = Vec::new();
    let mut x: usize = 0;
    while x < p.len()
        invariant
            es == entry_models(entries@),
            keyed_upto(es, kind, ci, k, es.len() as int),
            ks == key_views(k.keys@),
            stable_order(ks, p@),
            n == k.at@.len(),
            head@.len() == n,
            x <= p@.len(),
            at@.len() == keys@.len(),
            // Every position handled so far is marked, and those marked are the first ones.
            forall|y: int|
                0 <= y < x ==> head@[#[trigger] p@[y] as int] == is_first(
                    es,
                    kind,
                    ci,
                    k.at@[p@[y] as int] as int,
                ),
            forall|a: int|
                0 <= a < at@.len() ==> is_first(es, kind, ci, #[trigger] at@[a] as int),
            forall|a: int|
                0 <= a < at@.len() ==> (#[trigger] keys@[a])@ == codes(
                    entry_key(es[at@[a] as int], ci),
                ),
            forall|a: int, b: int|
                0 <= a < b < at@.len() ==> text_lt(
                    entry_key(es[#[trigger] at@[a] as int], ci),
                    entry_key(es[#[trigger] at@[b] as int], ci),
                ),
            forall|y: int|
                0 <= y < x && is_first(es, kind, ci, k.at@[#[trigger] p@[y] as int] as int)
                    ==> at@.contains(k.at@[p@[y] as int]),
            // The last key taken is that of the position handled last.
            x == 0 ==> at@.len() == 0,
            x > 0 ==> at@.len() > 0 && codes(entry_key(es[at@.last() as int], ci)) == ks[p@[x - 1] as int],
        decreases p@.len() - x,
    {
        let here = p[x];
        let fresh = if x == 0 {
            true
        } else {
            is_before(k.keys[p[x - 1]].as_slice(), k.keys[here].as_slice())
        };
        let ghost pos = k.at@[here as int] as int;
        proof {
            assert(ks[here as int] == k.keys@[here as int]@);
            if x > 0 {
                assert(ks[p@[x - 1] as int] == k.keys@[p@[x - 1] as int]@);
                assert(sorts_before(ks, p@[x - 1] as int, p@[x as int] as int));
            }
            lemma_fresh_is_first(es, kind, ci, k, p@, x as int, fresh);
        }
        let ghost at0 = at@;
        if fresh {
            head.set(here, true);
            let mut copy: Vec<i64> = Vec::new();
            let mut m: usize = 0;
            while m < k.keys[here].len()
                invariant
                    here < k.keys@.len(),
                    m <= k.keys@[here as int]@.len(),
                    copy@ == k.keys@[here as int]@.take(m as int),
                decreases k.keys@[here as int]@.len() - m,
            {
                assert(k.keys@[here as int]@.take(m as int + 1) =~= k.keys@[here as int]@.take(
                    m as int,
                ).push(k.keys@[here as int]@[m as int]));
                copy.push(k.keys[here][m]);
                m = m + 1;
            }
            assert(copy@ =~= k.keys@[here as int]@);
            at.push(k.at[here]);
            keys.push(copy);
            proof {
                assert(at@.last() == pos);
                assert forall|a: int, b: int| 0 <= a < b < at@.len() implies text_lt(
                    entry_key(es[#[trigger] at@[a] as int], ci),
                    entry_key(es[#[trigger] at@[b] as int], ci),
                ) by {
                    if b == at0.len() {
                        if a < at0.len() - 1 {
                            assert(text_lt(
                                entry_key(es[at0[a] as int], ci),
                                entry_key(es[at0.last() as int], ci),
                            ));
                            lemma_lex_transitive(
                                codes(entry_key(es[at0[a] as int], ci)),
                                codes(entry_key(es[at0.last() as int], ci)),
                                ks[here as int],
                            );
                        }
                    } else {
                        assert(at@[a] == at0[a] && at@[b] == at0[b]);
                    }
                }
                assert forall|y: int|
                    0 <= y < x + 1 && is_first(es, kind, ci, k.at@[#[trigger] p@[y] as int] as int) implies at@.contains(
                k.at@[p@[y] as int]) by {
                    if y < x {
                        let a = choose|a: int|
                            0 <= a < at0.len() && at0[a] == k.at@[p@[y] as int];
                        assert(at@[a] == k.at@[p@[y] as int]);
                    } else {
                        assert(at@[at0.len() as int] == k.at@[p@[y] as int]);
                    }
                }
                assert forall|y: int| 0 <= y < x + 1 implies head@[#[trigger] p@[y] as int] == is_first(
                    es,
                    kind,
                    ci,
                    k.at@[p@[y] as int] as int,
                ) by {
                    if y < x {
                        assert(sorts_before(ks, p@[y] as int, p@[x as int] as int));
                        lemma_lex_irreflexive(ks[here as int]);
                    }
                }
            }
        } else {
            head.set(here, false);
            proof {
                lemma_lex_total(ks[p@[x - 1] as int], ks[here as int]);
                assert forall|y: int| 0 <= y < x + 1 implies head@[#[trigger] p@[y] as int] == is_first(
                    es,
                    kind,
                    ci,
                    k.at@[p@[y] as int] as int,
                ) by {
                    if y < x {
                        assert(sorts_before(ks, p@[y] as int, p@[x as int] as int));
                        lemma_lex_irreflexive(ks[here as int]);
                    }
                }
            }
        }
        x = x + 1;
    }
    proof {
        let t = ints(at@);
        assert forall|i: int| #[trigger] is_first(es, kind, ci, i) implies t.contains(i) by {
            assert(es[i].kind == kind);
            let w = choose|w: int| 0 <= w < k.at@.len() && #[trigger] k.at@[w] == i;
            stable_order_is_complete(ks, p@, w);
            let y = choose|y: int| 0 <= y < p@.len() && p@[y] == w;
            assert(is_first(es, kind, ci, k.at@[p@[y] as int] as int));
            let a = choose|a: int| 0 <= a < at@.len() && at@[a] == k.at@[p@[y] as int];
            assert(t[a] == i);
        }
        assert forall|a: int, b: int| 0 <= a < b < t.len() implies text_lt(
            entry_key(es[#[trigger] t[a]], ci),
            entry_key(es[#[trigger] t[b]], ci),
        ) by {
            assert(text_lt(entry_key(es[at@[a] as int], ci), entry_key(es[at@[b] as int], ci)));
        }
        assert forall|a: int| 0 <= a < t.len() implies is_first(es, kind, ci, #[trigger] t[a]) by {
            assert(is_first(es, kind, ci, at@[a] as int));
        }
        assert forall|w: int| 0 <= w < n implies #[trigger] head@[w] == is_first(
            es,
            kind,
            ci,
            k.at@[w] as int,
        ) by {
            stable_order_is_complete(ks, p@, w);
            let y = choose|y: int| 0 <= y < p@.len() && p@[y] == w;
            assert(head@[p@[y] as int] == is_first(es, kind, ci, k.at@[p@[y] as int] as int));
        }
    }
    let dups = collect_dups(entries, kind, ci, &k, &head);
    KeyTable { at, keys, dups }
}

/// In a stable order a position is the first with its key when its key is new.
proof fn lemma_fresh_is_first(
    es: Seq<EntryModel>,
    kind: EntryKind,
    ci: bool,
    k: Keyed,
    p: Seq<usize>,
    x: int,
    fresh: bool,
)
    requires
        keyed_upto(es, kind, ci, k, es.len() as int),
        stable_order(key_views(k.keys@), p),
        0 <= x < p.len(),
        x == 0 ==> fresh,
        x > 0 ==> fresh == lex_lt(key_views(k.keys@)[p[x - 1] as int], key_views(k.keys@)[p[x] as int]),
    ensures
        fresh == is_first(es, kind, ci, k.at@[p[x] as int] as int),
{
    let ks = key_views(k.keys@);
    let here = p[x] as int;
    let pos = k.at@[here] as int;
    assert(ks[here] == k.keys@[here]@);
    if !fresh {
        let prev = p[x - 1] as int;
        assert(sorts_before(ks, p[x - 1] as int, p[x] as int));
        assert(ks[prev] == k.keys@[prev]@);
        assert(k.at@[prev] < k.at@[here]);
        lemma_codes_injective(
            entry_key(es[k.at@[prev] as int], ci),
            entry_key(es[pos], ci),
        );
        assert(es[k.at@[prev] as int].kind == kind);
    } else {
        assert forall|j: int| 0 <= j < pos && (#[trigger] es[j]).kind == kind implies entry_key(es[j], ci)
            != entry_key(es[pos], ci) by {
            let w = choose|w: int| 0 <= w < k.at@.len() && #[trigger] k.at@[w] == j;
            if entry_key(es[j], ci) == entry_key(es[pos], ci) {
                assert(ks[w] == k.keys@[w]@);
                assert(ks[w] == ks[here]);
                if w >= here {
                    if w > here {
                        assert(k.at@[here] < k.at@[w]);
                    }
                }
                assert(w < here);
                stable_order_is_complete(ks, p, w);
                let y = choose|y: int| 0 <= y < p.len() && p[y] == w;
                lemma_lex_irreflexive(ks[here]);
                if y > x {
                    assert(sorts_before(ks, p[x] as int, p[y] as int));
                } else {
                    assert(y < x);
                    let prev = p[x - 1] as int;
                    if y < x - 1 {
                        assert(sorts_before(ks, p[y] as int, p[x - 1] as int));
                        if lex_lt(ks[w], ks[prev]) {
                            lemma_lex_transitive(ks[w], ks[prev], ks[here]);
                        }
                    }
                }
            }
        }
    }
}

fn collect_dups(entries: &Vec<Entry>, kind: EntryKind, ci: bool, k: &Keyed, head: &Vec<bool>) -> (r: Vec<
    usize,
>)
    requires
        keyed_upto(entry_models(entries@), kind, ci, *k, entries@.len() as int),
        head@.len() == k.at@.len(),
        forall|w: int|
            0 <= w < head@.len() ==> #[trigger] head@[w] == is_first(
                entry_models(entries@),
                kind,
                ci,
                k.at@[w] as int,
            ),
    ensures
        ints(r@) == dups_of(entry_models(entries@), kind, ci),
{
    let ghost es = entry_models(entries@);
    let mut out: Vec<usize> = Vec::new();
    let mut w: usize = 0;
    let mut i: usize = 0;
    assert(ints(out@) =~= dups_upto(es, kind, ci, 0));
    while i < entries.len()
        invariant
            es == entry_models(entries@),
            keyed_upto(es, kind, ci, *k, es.len() as int),
            head@.len() == k.at@.len(),
            forall|w: int|
                0 <= w < head@.len() ==> #[trigger] head@[w] == is_first(
                    es,
                    kind,
                    ci,
                    k.at@[w] as int,
                ),
            i <= es.len(),
            w <= k.at@.len(),
            forall|y: int| 0 <= y < w ==> #[trigger] k.at@[y] < i,
            w < k.at@.len() ==> k.at@[w as int] >= i,
            ints(out@) == dups_upto(es, kind, ci, i as int),
        decreases entries@.len() - i,
    {
        proof {
            assert(es[i as int] == entries@[i as int]@);
            if es[i as int].kind == kind {
                let v = choose|v: int| 0 <= v < k.at@.len() && #[trigger] k.at@[v] == i;
                if v > w {
                    assert(k.at@[w as int] < k.at@[v]);
                }
                assert(v == w);
            }
        }
        if w < k.at.len() && k.at[w] == i {
            proof {
                assert(es[k.at@[w as int] as int].kind == kind);
            }
            if !head[w] {
                let ghost o = out@;
                out.push(i);
                assert(ints(out@) =~= ints(o).push(i as int));
            }
            proof {
                if w + 1 < k.at@.len() {
                    assert(k.at@[w as int] < k.at@[w as int + 1]);
                }
            }
            w = w + 1;
        }
        i = i + 1;
    }
    out
}

/// Clock differences up to this are none: FAT and some servers keep no finer times.
pub const MTIME_SLACK_MS: i64 = 2000;

#[derive(Clone, Copy, Debug, PartialEq, Eq, Structural)]
pub enum Action {
    Copy,
    Update,
    Move,
    /// Permission bits only.
    Chmod,
    Delete,
    DeleteDir,
    Conflict,
    Note,
}

#[derive(Clone, Copy, Debug, PartialEq, Eq, Structural)]
pub enum Side {
    Source,
    Target,
}

/// One step of a plan.
#[derive(Debug)]
pub struct Op {
    pub side: Side,
    pub action: Action,
    pub path: String,
    pub from: Option<String>,
    pub size: Option<u64>,
    pub mtime_ms: Option<i64>,
    /// The hash the content is expected to have.
    pub hash: Option<String>,
    /// The target, where the step makes a symlink.
    pub link: Option<String>,
    pub mode: Option<u32>,
    pub reason: String,
}

#[derive(Debug)]
pub struct PlanHeader {
    pub schema: u32,
    pub kind: String,
    pub mode: String,
    pub generated_at_ms: u64,
    pub source_root: String,
    pub source_host: String,
    pub target_root: String,
    pub target_host: String,
    pub op_count: u64,
    pub conflict_count: u64,
}

#[derive(Debug)]
pub struct Plan {
    pub header: PlanHeader,
    pub ops: Vec<Op>,
}

#[derive(Clone, Copy, Debug)]
pub struct CompareOptions {
    /// NTFS and APFS ignore case unless told otherwise.
    pub case_insensitive: bool,
}

impl Default for CompareOptions {
    fn default() -> (r: CompareOptions)
        ensures
            r.case_insensitive,
    {
        CompareOptions { case_insensitive: true }
    }
}

/// What a step says.
pub struct OpModel {
    pub side: Side,
    pub action: Action,
    pub path: Seq<char>,
    pub from: Option<Seq<char>>,
    pub size: Option<u64>,
    pub mtime_ms: Option<i64>,
    pub hash: Option<Seq<char>>,
    pub link: Option<Seq<char>>,
    pub mode: Option<u32>,
    pub reason: Seq<char>,
}

impl View for Op {
    type V = OpModel;

    open spec fn view(&self) -> OpModel {
        OpModel {
            side: self.side,
            action: self.action,
            path: self.path@,
            from: opt_text(self.from),
            size: self.size,
            mtime_ms: self.mtime_ms,
            hash: opt_text(self.hash),
            link: opt_text(self.link),
            mode: self.mode,
            reason: self.reason@,
        }
    }
}

/// The steps of a list.
pub open spec fn op_models(v: Seq<Op>) -> Seq<OpModel> {
    Seq::new(v.len(), |i: int| v[i]@)
}

/// Two files are the same: by hash where both have one, else by size and time.
pub open spec fn files_alike(a: EntryModel, b: EntryModel) -> bool {
    if a.hash is Some && b.hash is Some {
        a.hash == b.hash
    } else {
        a.size == b.size && -MTIME_SLACK_MS <= a.mtime_ms - b.mtime_ms <= MTIME_SLACK_MS
    }
}

pub fn files_equal(a: &Entry, b: &Entry) -> (r: bool)
    ensures
        r == files_alike(a@, b@),
{
    if let (Some(x), Some(y)) = (&a.hash, &b.hash) {
        return same(x.as_str(), y.as_str());
    }
    let d: i128 = a.mtime_ms as i128 - b.mtime_ms as i128;
    a.size == b.size && -(MTIME_SLACK_MS as i128) <= d && d <= MTIME_SLACK_MS as i128
}

/// A step that only reports or asks.
pub open spec fn remark(side: Side, action: Action, path: Seq<char>, reason: Seq<char>) -> OpModel {
    OpModel { side, action, path, from: None, size: None, mtime_ms: None, hash: None, link: None, mode: None, reason }
}

/// A step that brings the content of `e` to `path`.
pub open spec fn bring(
    side: Side,
    action: Action,
    path: Seq<char>,
    e: EntryModel,
    reason: Seq<char>,
) -> OpModel {
    OpModel {
        side,
        action,
        path,
        from: None,
        size: Some(e.size),
        mtime_ms: Some(e.mtime_ms),
        hash: e.hash,
        link: None,
        mode: None,
        reason,
    }
}

/// A step that moves or only names a place, with a size.
pub open spec fn place(
    side: Side,
    action: Action,
    path: Seq<char>,
    from: Option<Seq<char>>,
    size: u64,
    reason: Seq<char>,
) -> OpModel {
    OpModel { side, action, path, from, size: Some(size), mtime_ms: None, hash: None, link: None, mode: None, reason }
}

fn remark_op(side: Side, action: Action, path: &str, reason: &str) -> (r: Op)
    ensures
        r@ == remark(side, action, path@, reason@),
{
    Op {
        side,
        action,
        path: path.to_owned(),
        from: None,
        size: None,
        mtime_ms: None,
        hash: None,
        link: None,
        mode: None,
        reason: reason.to_owned(),
    }
}

fn bring_op(side: Side, action: Action, path: &str, e: &Entry, reason: &str) -> (r: Op)
    ensures
        r@ == bring(side, action, path@, e@, reason@),
{
    Op {
        side,
        action,
        path: path.to_owned(),
        from: None,
        size: Some(e.size),
        mtime_ms: Some(e.mtime_ms),
        hash: copy_opt(&e.hash),
        link: None,
        mode: None,
        reason: reason.to_owned(),
    }
}

fn place_op(side: Side, action: Action, path: &str, from: Option<String>, size: u64, reason: &str) -> (r:
    Op)
    ensures
        r@ == place(side, action, path@, opt_text(from), size, reason@),
{
    Op {
        side,
        action,
        path: path.to_owned(),
        from,
        size: Some(size),
        mtime_ms: None,
        hash: None,
        link: None,
        mode: None,
        reason: reason.to_owned(),
    }
}

/// The steps that a rule gives for the first `n` positions, in order.
pub open spec fn gather(n: int, rule: spec_fn(int) -> Option<OpModel>) -> Seq<OpModel>
    decreases n,
{
    if n <= 0 {
        Seq::empty()
    } else {
        match rule(n - 1) {
            Some(op) => gather(n - 1, rule).push(op),
            None => gather(n - 1, rule),
        }
    }
}

/// The positions below `n` that a test accepts, in order.
pub open spec fn select(n: int, test: spec_fn(int) -> bool) -> Seq<int>
    decreases n,
{
    if n <= 0 {
        Seq::empty()
    } else if test(n - 1) {
        select(n - 1, test).push(n - 1)
    } else {
        select(n - 1, test)
    }
}

/// The rows at the given positions.
pub open spec fn at(rows: Seq<EntryModel>, ix: Seq<int>) -> Seq<EntryModel> {
    Seq::new(ix.len(), |i: int| rows[ix[i]])
}

/// One candidate for having been moved: same hash, same size.
pub open spec fn could_be_moved(d: EntryModel, a: EntryModel) -> bool {
    a.hash is Some && d.hash == a.hash && d.size == a.size
}

/// The least position from `k` on that a test accepts.
pub open spec fn first_where(k: int, n: int, test: spec_fn(int) -> bool) -> Option<int>
    decreases n - k,
{
    if k >= n {
        None
    } else if test(k) {
        Some(k)
    } else {
        first_where(k + 1, n, test)
    }
}

/// Position `j` is in none of the pairs.
pub open spec fn unpaired(pairs: Seq<Option<int>>, j: int) -> bool {
    forall|i: int| 0 <= i < pairs.len() ==> #[trigger] pairs[i] != Some(j)
}

pub open spec fn free_test(a: EntryModel, dels: Seq<EntryModel>, pairs: Seq<Option<int>>) -> spec_fn(
    int,
) -> bool {
    |j: int| unpaired(pairs, j) && could_be_moved(dels[j], a)
}

pub open spec fn namesake_test(
    a: EntryModel,
    dels: Seq<EntryModel>,
    pairs: Seq<Option<int>>,
) -> spec_fn(int) -> bool {
    |j: int|
        unpaired(pairs, j) && could_be_moved(dels[j], a) && file_name_of(dels[j].path) == file_name_of(
            a.path,
        )
}

/// The deletion that an addition is paired with: a free candidate of the same name, else the first
/// free candidate.
pub open spec fn partner(a: EntryModel, dels: Seq<EntryModel>, pairs: Seq<Option<int>>) -> Option<int> {
    let near = first_where(0, dels.len() as int, namesake_test(a, dels, pairs));
    if near is Some {
        near
    } else {
        first_where(0, dels.len() as int, free_test(a, dels, pairs))
    }
}

/// The partner of every addition, in order; each deletion is given away once.
pub open spec fn pairing(adds: Seq<EntryModel>, dels: Seq<EntryModel>) -> Seq<Option<int>>
    decreases adds.len(),
{
    if adds.len() == 0 {
        Seq::empty()
    } else {
        let before = pairing(adds.drop_last(), dels);
        before.push(partner(adds.last(), dels, before))
    }
}

/// A pair as a move on one side.
pub open spec fn move_rule(
    adds: Seq<EntryModel>,
    dels: Seq<EntryModel>,
    pairs: Seq<Option<int>>,
    side: Side,
    reason: Seq<char>,
) -> spec_fn(int) -> Option<OpModel> {
    |i: int|
        match pairs[i] {
            Some(j) => Some(
                place(side, Action::Move, adds[i].path, Some(dels[j].path), adds[i].size, reason),
            ),
            None => None,
        }
}

/// The steps that carry the pairs out as moves on one side.
pub open spec fn move_steps(
    adds: Seq<EntryModel>,
    dels: Seq<EntryModel>,
    side: Side,
    reason: Seq<char>,
) -> Seq<OpModel> {
    gather(adds.len() as int, move_rule(adds, dels, pairing(adds, dels), side, reason))
}

pub open spec fn alone(pairs: Seq<Option<int>>) -> spec_fn(int) -> bool {
    |i: int| pairs[i] is None
}

pub open spec fn left_over(pairs: Seq<Option<int>>) -> spec_fn(int) -> bool {
    |j: int| unpaired(pairs, j)
}

/// The additions without a partner.
pub open spec fn added(adds: Seq<EntryModel>, dels: Seq<EntryModel>) -> Seq<EntryModel> {
    at(adds, select(adds.len() as int, alone(pairing(adds, dels))))
}

/// The deletions that no addition took.
pub open spec fn deleted(adds: Seq<EntryModel>, dels: Seq<EntryModel>) -> Seq<EntryModel> {
    at(dels, select(dels.len() as int, left_over(pairing(adds, dels))))
}

pub open spec fn copy_rule(es: Seq<EntryModel>, side: Side, reason: Seq<char>) -> spec_fn(
    int,
) -> Option<OpModel> {
    |i: int| Some(bring(side, Action::Copy, es[i].path, es[i], reason))
}

pub open spec fn delete_rule(es: Seq<EntryModel>, side: Side, reason: Seq<char>) -> spec_fn(
    int,
) -> Option<OpModel> {
    |i: int| Some(place(side, Action::Delete, es[i].path, None, es[i].size, reason))
}

/// Every entry is copied to one side.
pub open spec fn copy_steps(es: Seq<EntryModel>, side: Side, reason: Seq<char>) -> Seq<OpModel> {
    gather(es.len() as int, copy_rule(es, side, reason))
}

/// Every entry is deleted on one side.
pub open spec fn delete_steps(es: Seq<EntryModel>, side: Side, reason: Seq<char>) -> Seq<OpModel> {
    gather(es.len() as int, delete_rule(es, side, reason))
}

/// What is compared: the two tables, the one of the last sync where there is one, and the options.
pub struct Tables {
    pub source: Seq<EntryModel>,
    pub target: Seq<EntryModel>,
    pub archive: Option<Seq<EntryModel>>,
    pub ci: bool,
    /// Both tables carry hashes.
    pub hashed: bool,
    pub newer_wins: bool,
}

impl Tables {
    pub open spec fn s_rows(self) -> Seq<EntryModel> {
        rows_of(self.source, EntryKind::File, self.ci)
    }

    pub open spec fn t_rows(self) -> Seq<EntryModel> {
        rows_of(self.target, EntryKind::File, self.ci)
    }

    pub open spec fn s_file(self, e: EntryModel) -> Option<EntryModel> {
        entry_for(self.source, EntryKind::File, self.ci, entry_key(e, self.ci))
    }

    pub open spec fn t_file(self, e: EntryModel) -> Option<EntryModel> {
        entry_for(self.target, EntryKind::File, self.ci, entry_key(e, self.ci))
    }

    pub open spec fn a_file(self, e: EntryModel) -> Option<EntryModel> {
        match self.archive {
            Some(es) => entry_for(es, EntryKind::File, self.ci, entry_key(e, self.ci)),
            None => None,
        }
    }

    pub open spec fn twin_rule(self, es: Seq<EntryModel>, side: Side) -> spec_fn(int) -> Option<OpModel> {
        |i: int|
            Some(
                remark(
                    side,
                    Action::Note,
                    es[dups_of(es, EntryKind::File, self.ci)[i]].path,
                    "duplicate-after-normalization (kept first; NFC/case twin)"@,
                ),
            )
    }

    /// Twins are reported, not merged.
    pub open spec fn twin_steps(self, es: Seq<EntryModel>, side: Side) -> Seq<OpModel> {
        gather(dups_of(es, EntryKind::File, self.ci).len() as int, self.twin_rule(es, side))
    }

    /// The update of the target that a source file asks for.
    pub open spec fn update_of(self, se: EntryModel, mirror: bool) -> Option<OpModel> {
        match self.t_file(se) {
            Some(te) => if !files_alike(se, te) && (mirror || se.mtime_ms > te.mtime_ms
                + MTIME_SLACK_MS) {
                Some(
                    bring(
                        Side::Target,
                        Action::Update,
                        te.path,
                        se,
                        if mirror {
                            "differs-master-wins"@
                        } else {
                            "source-newer"@
                        },
                    ),
                )
            } else {
                None
            },
            None => None,
        }
    }

    pub open spec fn update_rule(self, mirror: bool) -> spec_fn(int) -> Option<OpModel> {
        |i: int| self.update_of(self.s_rows()[i], mirror)
    }

    /// Updates of the target where the source decides.
    pub open spec fn update_steps(self, mirror: bool) -> Seq<OpModel> {
        gather(self.s_rows().len() as int, self.update_rule(mirror))
    }

    pub open spec fn s_only_test(self) -> spec_fn(int) -> bool {
        |i: int| self.t_file(self.s_rows()[i]) is None
    }

    /// The files that only the source has.
    pub open spec fn s_only(self) -> Seq<EntryModel> {
        at(self.s_rows(), select(self.s_rows().len() as int, self.s_only_test()))
    }

    pub open spec fn t_only_test(self) -> spec_fn(int) -> bool {
        |i: int| self.s_file(self.t_rows()[i]) is None
    }

    /// The files that only the target has.
    pub open spec fn t_only(self) -> Seq<EntryModel> {
        at(self.t_rows(), select(self.t_rows().len() as int, self.t_only_test()))
    }

    pub open spec fn t_dirs(self) -> Seq<EntryModel> {
        rows_of(self.target, EntryKind::Dir, self.ci)
    }

    pub open spec fn dir_rule(self) -> spec_fn(int) -> Option<OpModel> {
        |i: int|
            if entry_for(
                self.source,
                EntryKind::Dir,
                self.ci,
                entry_key(self.t_dirs()[i], self.ci),
            ) is None {
                Some(
                    remark(
                        Side::Target,
                        Action::DeleteDir,
                        self.t_dirs()[i].path,
                        "dir-gone-from-source"@,
                    ),
                )
            } else {
                None
            }
    }

    /// Directories that are gone from the source.
    pub open spec fn dir_steps(self) -> Seq<OpModel> {
        gather(self.t_dirs().len() as int, self.dir_rule())
    }

    pub open spec fn mirror_steps(self) -> Seq<OpModel> {
        let adds = self.s_only();
        let dels = self.t_only();
        if self.hashed {
            self.update_steps(true) + move_steps(
                adds,
                dels,
                Side::Target,
                "move-detected-by-hash"@,
            ) + copy_steps(added(adds, dels), Side::Target, "only-in-source"@) + delete_steps(
                deleted(adds, dels),
                Side::Target,
                "gone-from-source"@,
            ) + self.dir_steps()
        } else {
            self.update_steps(true) + copy_steps(adds, Side::Target, "only-in-source"@) + delete_steps(
                dels,
                Side::Target,
                "gone-from-source"@,
            ) + self.dir_steps()
        }
    }

    pub open spec fn enrich_steps(self) -> Seq<OpModel> {
        self.update_steps(false) + copy_steps(self.s_only(), Side::Target, "only-in-source"@)
    }

    /// What a sync makes of a file that both sides have and that differs.
    pub open spec fn differing(self, se: EntryModel, te: EntryModel) -> OpModel {
        if self.archive is Some {
            let r = self.a_file(se);
            let s_same = r is Some && files_alike(se, r->0);
            let t_same = r is Some && files_alike(te, r->0);
            if s_same && !t_same {
                bring(Side::Source, Action::Update, se.path, te, "target-changed"@)
            } else if t_same && !s_same {
                bring(Side::Target, Action::Update, te.path, se, "source-changed"@)
            } else {
                remark(Side::Target, Action::Conflict, se.path, "both-changed"@)
            }
        } else if self.newer_wins {
            if se.mtime_ms >= te.mtime_ms {
                bring(Side::Target, Action::Update, te.path, se, "differs-newer-wins"@)
            } else {
                bring(Side::Source, Action::Update, se.path, te, "differs-newer-wins"@)
            }
        } else {
            remark(Side::Target, Action::Conflict, se.path, "differs-no-archive"@)
        }
    }

    /// What a sync says of a source file at once.
    pub open spec fn s_step(self, se: EntryModel) -> Option<OpModel> {
        match self.t_file(se) {
            Some(te) => if files_alike(se, te) {
                None
            } else {
                Some(self.differing(se, te))
            },
            None => match self.a_file(se) {
                Some(r) => if files_alike(se, r) {
                    None
                } else {
                    Some(
                        remark(
                            Side::Target,
                            Action::Conflict,
                            se.path,
                            "deleted-on-target-but-changed-on-source"@,
                        ),
                    )
                },
                None => None,
            },
        }
    }

    /// What a sync says of a target file at once.
    pub open spec fn t_step(self, te: EntryModel) -> Option<OpModel> {
        if self.s_file(te) is Some {
            None
        } else {
            match self.a_file(te) {
                Some(r) => if files_alike(te, r) {
                    None
                } else {
                    Some(
                        remark(
                            Side::Target,
                            Action::Conflict,
                            te.path,
                            "deleted-on-source-but-changed-on-target"@,
                        ),
                    )
                },
                None => None,
            }
        }
    }

    pub open spec fn s_added_test(self) -> spec_fn(int) -> bool {
        |i: int| self.t_file(self.s_rows()[i]) is None && self.a_file(self.s_rows()[i]) is None
    }

    pub open spec fn t_added_test(self) -> spec_fn(int) -> bool {
        |i: int| self.s_file(self.t_rows()[i]) is None && self.a_file(self.t_rows()[i]) is None
    }

    /// A file is as it was at the last sync.
    pub open spec fn unchanged(self, e: EntryModel) -> bool {
        self.a_file(e) matches Some(r) && files_alike(e, r)
    }

    pub open spec fn s_doomed_test(self) -> spec_fn(int) -> bool {
        |i: int| self.t_file(self.s_rows()[i]) is None && self.unchanged(self.s_rows()[i])
    }

    pub open spec fn t_doomed_test(self) -> spec_fn(int) -> bool {
        |i: int| self.s_file(self.t_rows()[i]) is None && self.unchanged(self.t_rows()[i])
    }

    /// The files that were added on the source.
    pub open spec fn s_added(self) -> Seq<EntryModel> {
        at(self.s_rows(), select(self.s_rows().len() as int, self.s_added_test()))
    }

    /// The files that were added on the target.
    pub open spec fn t_added(self) -> Seq<EntryModel> {
        at(self.t_rows(), select(self.t_rows().len() as int, self.t_added_test()))
    }

    /// The source files that were deleted on the target and are unchanged since the last sync.
    pub open spec fn s_doomed(self) -> Seq<EntryModel> {
        at(self.s_rows(), select(self.s_rows().len() as int, self.s_doomed_test()))
    }

    /// The target files that were deleted on the source and are unchanged since the last sync.
    pub open spec fn t_doomed(self) -> Seq<EntryModel> {
        at(self.t_rows(), select(self.t_rows().len() as int, self.t_doomed_test()))
    }

    pub open spec fn hint_rule(self) -> spec_fn(int) -> Option<OpModel> {
        |i: int|
            match last_with_hash(self.t_added(), self.t_added().len() as int, self.s_added()[i].hash) {
                Some(j) => Some(
                    place(
                        Side::Target,
                        Action::Note,
                        self.s_added()[i].path,
                        Some(self.t_added()[j].path),
                        self.s_added()[i].size,
                        "possible-move-needs-archive"@,
                    ),
                ),
                None => None,
            }
    }

    /// Additions on both sides with one hash may be a move that only a table of the last sync could tell.
    pub open spec fn hint_steps(self) -> Seq<OpModel> {
        gather(self.s_added().len() as int, self.hint_rule())
    }

    pub open spec fn s_rule(self) -> spec_fn(int) -> Option<OpModel> {
        |i: int| self.s_step(self.s_rows()[i])
    }

    pub open spec fn t_rule(self) -> spec_fn(int) -> Option<OpModel> {
        |i: int| self.t_step(self.t_rows()[i])
    }

    pub open spec fn sync_steps(self) -> Seq<OpModel> {
        let head = gather(self.s_rows().len() as int, self.s_rule()) + gather(
            self.t_rows().len() as int,
            self.t_rule(),
        );
        if self.archive is Some && self.hashed {
            head + move_steps(
                self.s_added(),
                self.t_doomed(),
                Side::Target,
                "move-on-source-replayed"@,
            ) + move_steps(
                self.t_added(),
                self.s_doomed(),
                Side::Source,
                "move-on-target-replayed"@,
            ) + copy_steps(
                added(self.s_added(), self.t_doomed()),
                Side::Target,
                "added-on-source"@,
            ) + copy_steps(
                added(self.t_added(), self.s_doomed()),
                Side::Source,
                "added-on-target"@,
            ) + delete_steps(
                deleted(self.s_added(), self.t_doomed()),
                Side::Target,
                "deleted-on-source"@,
            ) + delete_steps(
                deleted(self.t_added(), self.s_doomed()),
                Side::Source,
                "deleted-on-target"@,
            )
        } else {
            let hints = if self.hashed {
                self.hint_steps()
            } else {
                Seq::empty()
            };
            head + hints + copy_steps(self.s_added(), Side::Target, "only-in-source"@) + copy_steps(
                self.t_added(),
                Side::Source,
                "only-in-target"@,
            ) + delete_steps(self.t_doomed(), Side::Target, "deleted-on-source"@) + delete_steps(
                self.s_doomed(),
                Side::Source,
                "deleted-on-target"@,
            )
        }
    }

    /// All steps, before names are checked and the steps are put in order.
    pub open spec fn draft(self, mode: Seq<char>) -> Seq<OpModel> {
        let twins = self.twin_steps(self.source, Side::Source) + self.twin_steps(
            self.target,
            Side::Target,
        );
        if mode == "mirror"@ {
            twins + self.mirror_steps()
        } else if mode == "enrich"@ {
            twins + self.enrich_steps()
        } else {
            twins + self.sync_steps()
        }
    }
}

/// The last of the first `n` entries with the given hash; none where there is no hash.
pub open spec fn last_with_hash(es: Seq<EntryModel>, n: int, hash: Option<Seq<char>>) -> Option<int>
    decreases n,
{
    if n <= 0 || hash is None {
        None
    } else if es[n - 1].hash == hash {
        Some(n - 1)
    } else {
        last_with_hash(es, n - 1, hash)
    }
}

proof fn lemma_op_push(v: Seq<Op>, o: Op)
    ensures
        op_models(v.push(o)) == op_models(v).push(o@),
{
    assert(op_models(v.push(o)) =~= op_models(v).push(o@));
}

/// The entries at the listed positions.
spec fn picked(es: Seq<EntryModel>, ix: Seq<usize>) -> Seq<EntryModel> {
    Seq::new(ix.len(), |i: int| es[ix[i] as int])
}

/// Every listed position is one of the table.
spec fn within(ix: Seq<usize>, n: int) -> bool {
    forall|i: int| 0 <= i < ix.len() ==> 0 <= #[trigger] ix[i] < n
}

/// The files of one side, with their keys.
struct Files<'a> {
    entries: &'a Vec<Entry>,
    table: KeyTable,
}

impl<'a> Files<'a> {
    spec fn es(&self) -> Seq<EntryModel> {
        entry_models(self.entries@)
    }

    spec fn wf(&self, kind: EntryKind, ci: bool) -> bool {
        self.table.describes(self.es(), kind, ci)
    }

    fn load(entries: &'a Vec<Entry>, kind: EntryKind, ci: bool) -> (r: Files<'a>)
        ensures
            r.wf(kind, ci),
            r.es() == entry_models(entries@),
    {
        Files { entries, table: map_of(entries, kind, ci) }
    }

    /// The entry that stands for the key of `e`.
    fn for_key(&self, e: &Entry, kind: EntryKind, ci: bool) -> (r: Option<&'a Entry>)
        requires
            self.wf(kind, ci),
        ensures
            match r {
                Some(x) => entry_for(self.es(), kind, ci, entry_key(e@, ci)) == Some(x@),
                None => entry_for(self.es(), kind, ci, entry_key(e@, ci)) is None,
            },
    {
        match self.table.get(e.path.as_str(), Ghost(self.es()), Ghost(kind), ci) {
            Some(i) => {
                assert(self.es()[i as int] == self.entries@[i as int]@);
                Some(&self.entries[i])
            },
            None => None,
        }
    }

    /// Row `x`, with its position in the table.
    fn row(&self, x: usize, Ghost(kind): Ghost<EntryKind>, Ghost(ci): Ghost<bool>) -> (r: (
        usize,
        &'a Entry,
    ))
        requires
            self.wf(kind, ci),
            x < rows_of(self.es(), kind, ci).len(),
        ensures
            r.0 < self.es().len(),
            r.1@ == self.es()[r.0 as int],
            r.1@ == rows_of(self.es(), kind, ci)[x as int],
    {
        proof {
            self.table.lemma_describes(self.es(), kind, ci);
        }
        let i = self.table.row(x);
        (i, &self.entries[i])
    }

    fn len(&self, Ghost(kind): Ghost<EntryKind>, Ghost(ci): Ghost<bool>) -> (r: usize)
        requires
            self.wf(kind, ci),
        ensures
            r == rows_of(self.es(), kind, ci).len(),
    {
        proof {
            self.table.lemma_describes(self.es(), kind, ci);
        }
        self.table.len()
    }
}

proof fn lemma_pick(
    es: Seq<EntryModel>,
    rows: Seq<EntryModel>,
    ix: Seq<usize>,
    x: int,
    test: spec_fn(int) -> bool,
    i: usize,
)
    requires
        picked(es, ix) == at(rows, select(x, test)),
        within(ix, es.len() as int),
        0 <= x < rows.len(),
        i < es.len(),
        es[i as int] == rows[x],
    ensures
        test(x) ==> picked(es, ix.push(i)) == at(rows, select(x + 1, test)) && within(
            ix.push(i),
            es.len() as int,
        ),
        !test(x) ==> picked(es, ix) == at(rows, select(x + 1, test)),
{
    let before = select(x, test);
    if test(x) {
        assert(select(x + 1, test) == before.push(x));
        assert(picked(es, ix).len() == at(rows, before).len());
        assert forall|k: int| 0 <= k < ix.push(i).len() implies picked(es, ix.push(i))[k] == at(
            rows,
            before.push(x),
        )[k] by {
            if k < ix.len() {
                assert(picked(es, ix)[k] == at(rows, before)[k]);
            }
        }
        assert(picked(es, ix.push(i)) =~= at(rows, select(x + 1, test)));
    }
}

fn push_twins(ops: &mut Vec<Op>, files: &Files, side: Side, Ghost(t): Ghost<Tables>)
    requires
        files.wf(EntryKind::File, t.ci),
    ensures
        op_models(final(ops)@) == op_models(old(ops)@) + t.twin_steps(files.es(), side),
{
    let ghost es = files.es();
    let ghost rule = t.twin_rule(es, side);
    let ghost start = op_models(ops@);
    proof {
        files.table.lemma_describes(es, EntryKind::File, t.ci);
    }
    let n = files.table.twin_count();
    let mut i: usize = 0;
    assert(start + gather(0, rule) =~= start);
    while i < n
        invariant
            files.wf(EntryKind::File, t.ci),
            es == files.es(),
            n == files.table.twins().len(),
            i <= n,
            rule == t.twin_rule(es, side),
            op_models(ops@) == start + gather(i as int, rule),
        decreases n - i,
    {
        proof {
            files.table.lemma_describes(es, EntryKind::File, t.ci);
        }
        let k = files.table.twin(i);
        let op = remark_op(
            side,
            Action::Note,
            files.entries[k].path.as_str(),
            "duplicate-after-normalization (kept first; NFC/case twin)",
        );
        proof {
            lemma_op_push(ops@, op);
            assert(ints(files.table.twins())[i as int] == k as int);
            assert(es[k as int] == files.entries@[k as int]@);
            assert(rule(i as int) == Some(op@));
            assert((start + gather(i as int, rule)).push(op@) =~= start + gather(
                i as int + 1,
                rule,
            ));
        }
        ops.push(op);
        i = i + 1;
    }
}

/// Updates of the target, and the positions of the files that only the source has.
fn push_updates(
    ops: &mut Vec<Op>,
    s: &Files,
    t: &Files,
    mirror: bool,
    ci: bool,
    Ghost(m): Ghost<Tables>,
) -> (adds: Vec<usize>)
    requires
        s.wf(EntryKind::File, ci),
        t.wf(EntryKind::File, ci),
        m.source == s.es(),
        m.target == t.es(),
        m.ci == ci,
    ensures
        op_models(final(ops)@) == op_models(old(ops)@) + m.update_steps(mirror),
        within(adds@, s.es().len() as int),
        picked(s.es(), adds@) == m.s_only(),
{
    let ghost rows = m.s_rows();
    let ghost rule = m.update_rule(mirror);
    let ghost test = m.s_only_test();
    let ghost start = op_models(ops@);
    let mut adds: Vec<usize> = Vec::new();
    let n = s.len(Ghost(EntryKind::File), Ghost(ci));
    let mut x: usize = 0;
    proof {
        assert(start + gather(0, rule) =~= start);
        assert(picked(s.es(), adds@) =~= at(rows, select(0, test)));
    }
    while x < n
        invariant
            s.wf(EntryKind::File, ci),
            t.wf(EntryKind::File, ci),
            m.source == s.es(),
            m.target == t.es(),
            m.ci == ci,
            rows == m.s_rows(),
            rule == m.update_rule(mirror),
            test == m.s_only_test(),
            n == rows.len(),
            x <= n,
            op_models(ops@) == start + gather(x as int, rule),
            within(adds@, s.es().len() as int),
            picked(s.es(), adds@) == at(rows, select(x as int, test)),
        decreases n - x,
    {
        let (i, se) = s.row(x, Ghost(EntryKind::File), Ghost(ci));
        let ghost ops0 = ops@;
        proof {
            lemma_pick(s.es(), rows, adds@, x as int, test, i);
        }
        match t.for_key(se, EntryKind::File, ci) {
            None => {
                assert(rule(x as int) is None);
                assert(test(x as int));
                adds.push(i);
            },
            Some(te) => {
                assert(!test(x as int));
                if !files_equal(se, te) && (mirror || se.mtime_ms as i128 > te.mtime_ms as i128
                    + MTIME_SLACK_MS as i128) {
                    let reason = if mirror {
                        "differs-master-wins"
                    } else {
                        "source-newer"
                    };
                    let op = bring_op(Side::Target, Action::Update, te.path.as_str(), se, reason);
                    proof {
                        lemma_op_push(ops@, op);
                        assert(rule(x as int) == Some(op@));
                        assert((start + gather(x as int, rule)).push(op@) =~= start + gather(
                            x as int + 1,
                            rule,
                        ));
                    }
                    ops.push(op);
                } else {
                    assert(rule(x as int) is None);
                }
            },
        }
        x = x + 1;
    }
    adds
}

/// The positions of the files that `mine` has and `theirs` has not.
fn only_mine(mine: &Files, theirs: &Files, ci: bool) -> (r: Vec<usize>)
    requires
        mine.wf(EntryKind::File, ci),
        theirs.wf(EntryKind::File, ci),
    ensures
        within(r@, mine.es().len() as int),
        forall|m: Tables|
            m.target == mine.es() && m.source == theirs.es() && m.ci == ci ==> picked(
                mine.es(),
                r@,
            ) == #[trigger] m.t_only(),
{
    let ghost rows = rows_of(mine.es(), EntryKind::File, ci);
    let ghost test = |i: int|
        entry_for(theirs.es(), EntryKind::File, ci, entry_key(rows[i], ci)) is None;
    let mut out: Vec<usize> = Vec::new();
    let n = mine.len(Ghost(EntryKind::File), Ghost(ci));
    let mut x: usize = 0;
    assert(picked(mine.es(), out@) =~= at(rows, select(0, test)));
    while x < n
        invariant
            mine.wf(EntryKind::File, ci),
            theirs.wf(EntryKind::File, ci),
            rows == rows_of(mine.es(), EntryKind::File, ci),
            test == (|i: int|
                entry_for(theirs.es(), EntryKind::File, ci, entry_key(rows[i], ci)) is None),
            n == rows.len(),
            x <= n,
            within(out@, mine.es().len() as int),
            picked(mine.es(), out@) == at(rows, select(x as int, test)),
        decreases n - x,
    {
        let (i, e) = mine.row(x, Ghost(EntryKind::File), Ghost(ci));
        proof {
            lemma_pick(mine.es(), rows, out@, x as int, test, i);
        }
        if theirs.for_key(e, EntryKind::File, ci).is_none() {
            assert(test(x as int));
            out.push(i);
        } else {
            assert(!test(x as int));
        }
        x = x + 1;
    }
    proof {
        assert forall|m: Tables|
            m.target == mine.es() && m.source == theirs.es() && m.ci == ci implies picked(
            mine.es(),
            out@,
        ) == #[trigger] m.t_only() by {
            lemma_select_same(rows.len() as int, test, m.t_only_test());
        }
    }
    out
}

proof fn lemma_select_same(n: int, a: spec_fn(int) -> bool, b: spec_fn(int) -> bool)
    requires
        forall|i: int| 0 <= i < n ==> #[trigger] a(i) == b(i),
    ensures
        select(n, a) == select(n, b),
    decreases n,
{
    if n > 0 {
        assert(a(n - 1) == b(n - 1));
        lemma_select_same(n - 1, a, b);
    }
}

proof fn lemma_select_range(n: int, test: spec_fn(int) -> bool)
    ensures
        forall|k: int|
            0 <= k < select(n, test).len() ==> {
                &&& 0 <= #[trigger] select(n, test)[k] < n
                &&& test(select(n, test)[k])
            },
        forall|i: int| 0 <= i < n && #[trigger] test(i) ==> select(n, test).contains(i),
    decreases n,
{
    if n > 0 {
        lemma_select_range(n - 1, test);
        let before = select(n - 1, test);
        let now = select(n, test);
        assert forall|k: int| 0 <= k < now.len() implies 0 <= #[trigger] now[k] < n && test(now[k]) by {
            if k < before.len() {
                assert(now[k] == before[k]);
            }
        }
        assert forall|i: int| 0 <= i < n && #[trigger] test(i) implies now.contains(i) by {
            if i == n - 1 {
                assert(now[now.len() - 1] == i);
            } else {
                let k = choose|k: int| 0 <= k < before.len() && before[k] == i;
                assert(now[k] == i);
            }
        }
    }
}

fn push_copies(ops: &mut Vec<Op>, entries: &Vec<Entry>, ix: &Vec<usize>, side: Side, reason: &str)
    requires
        within(ix@, entries@.len() as int),
    ensures
        op_models(final(ops)@) == op_models(old(ops)@) + copy_steps(
            picked(entry_models(entries@), ix@),
            side,
            reason@,
        ),
{
    let ghost es = picked(entry_models(entries@), ix@);
    let ghost rule = copy_rule(es, side, reason@);
    let ghost start = op_models(ops@);
    let mut k: usize = 0;
    assert(start + gather(0, rule) =~= start);
    while k < ix.len()
        invariant
            within(ix@, entries@.len() as int),
            es == picked(entry_models(entries@), ix@),
            rule == copy_rule(es, side, reason@),
            k <= ix@.len(),
            op_models(ops@) == start + gather(k as int, rule),
        decreases ix@.len() - k,
    {
        let i = ix[k];
        let e = &entries[i];
        let op = push_copy(side, e, reason);
        proof {
            assert(es[k as int] == e@);
            lemma_op_push(ops@, op);
            assert(rule(k as int) == Some(op@));
            assert((start + gather(k as int, rule)).push(op@) =~= start + gather(k as int + 1, rule));
        }
        ops.push(op);
        k = k + 1;
    }
}

fn push_copy(side: Side, e: &Entry, reason: &str) -> (r: Op)
    ensures
        r@ == bring(side, Action::Copy, e@.path, e@, reason@),
{
    bring_op(side, Action::Copy, e.path.as_str(), e, reason)
}

fn push_deletes(ops: &mut Vec<Op>, entries: &Vec<Entry>, ix: &Vec<usize>, side: Side, reason: &str)
    requires
        within(ix@, entries@.len() as int),
    ensures
        op_models(final(ops)@) == op_models(old(ops)@) + delete_steps(
            picked(entry_models(entries@), ix@),
            side,
            reason@,
        ),
{
    let ghost es = picked(entry_models(entries@), ix@);
    let ghost rule = delete_rule(es, side, reason@);
    let ghost start = op_models(ops@);
    let mut k: usize = 0;
    assert(start + gather(0, rule) =~= start);
    while k < ix.len()
        invariant
            within(ix@, entries@.len() as int),
            es == picked(entry_models(entries@), ix@),
            rule == delete_rule(es, side, reason@),
            k <= ix@.len(),
            op_models(ops@) == start + gather(k as int, rule),
        decreases ix@.len() - k,
    {
        let i = ix[k];
        let e = &entries[i];
        let op = place_op(side, Action::Delete, e.path.as_str(), None, e.size, reason);
        proof {
            assert(es[k as int] == e@);
            lemma_op_push(ops@, op);
            assert(rule(k as int) == Some(op@));
            assert((start + gather(k as int, rule)).push(op@) =~= start + gather(k as int + 1, rule));
        }
        ops.push(op);
        k = k + 1;
    }
}

/// The positions in a list of optional positions, as integers.
spec fn opt_ints(v: Seq<Option<usize>>) -> Seq<Option<int>> {
    Seq::new(
        v.len(),
        |i: int|
            match v[i] {
                Some(j) => Some(j as int),
                None => None,
            },
    )
}

fn same_opt(a: &Option<String>, b: &Option<String>) -> (r: bool)
    ensures
        r == (opt_text(*a) == opt_text(*b)),
{
    match (a, b) {
        (Some(x), Some(y)) => same(x.as_str(), y.as_str()),
        (None, None) => true,
        _ => false,
    }
}

/// The partner of one addition.
fn find_partner(
    a: &Entry,
    entries: &Vec<Entry>,
    dels: &Vec<usize>,
    used: &Vec<bool>,
    Ghost(pairs): Ghost<Seq<Option<int>>>,
) -> (r: Option<usize>)
    requires
        within(dels@, entries@.len() as int),
        used@.len() == dels@.len(),
        forall|j: int| 0 <= j < used@.len() ==> #[trigger] used@[j] == !unpaired(pairs, j),
    ensures
        match r {
            Some(j) => j < dels@.len() && partner(a@, picked(entry_models(entries@), dels@), pairs)
                == Some(j as int),
            None => partner(a@, picked(entry_models(entries@), dels@), pairs) is None,
        },
{
    let ghost ds = picked(entry_models(entries@), dels@);
    let ghost near = namesake_test(a@, ds, pairs);
    let ghost any = free_test(a@, ds, pairs);
    let name = file_name(a.path.as_str());
    let n = dels.len();
    let mut first: Option<usize> = None;
    let mut j: usize = 0;
    while j < n
        invariant
            within(dels@, entries@.len() as int),
            used@.len() == dels@.len(),
            forall|j: int| 0 <= j < used@.len() ==> #[trigger] used@[j] == !unpaired(pairs, j),
            ds == picked(entry_models(entries@), dels@),
            near == namesake_test(a@, ds, pairs),
            any == free_test(a@, ds, pairs),
            opt_text(name) == file_name_of(a.path@),
            n == dels@.len(),
            n == ds.len(),
            j <= n,
            first_where(0, n as int, near) == first_where(j as int, n as int, near),
            match first {
                Some(k) => k < n && first_where(0, n as int, any) == Some(k as int),
                None => first_where(0, n as int, any) == first_where(j as int, n as int, any),
            },
        decreases n - j,
    {
        let i = dels[j];
        let d = &entries[i];
        assert(ds[j as int] == d@);
        let free = !used[j] && a.hash.is_some() && same_opt(&d.hash, &a.hash) && d.size == a.size;
        assert(free == any(j as int));
        if free {
            if first.is_none() {
                first = Some(j);
            }
            let there = file_name(d.path.as_str());
            if same_opt(&there, &name) {
                assert(near(j as int));
                return Some(j);
            }
        }
        assert(!near(j as int));
        j = j + 1;
    }
    first
}

/// Pairs additions with deletions of the same content: a move is cheaper than a copy.
fn detect_moves(
    a_entries: &Vec<Entry>,
    adds: &Vec<usize>,
    d_entries: &Vec<Entry>,
    dels: &Vec<usize>,
) -> (r: Vec<Option<usize>>)
    requires
        within(adds@, a_entries@.len() as int),
        within(dels@, d_entries@.len() as int),
    ensures
        opt_ints(r@) == pairing(
            picked(entry_models(a_entries@), adds@),
            picked(entry_models(d_entries@), dels@),
        ),
        forall|i: int| 0 <= i < r@.len() ==> (#[trigger] r@[i] matches Some(j) ==> j < dels@.len()),
{
    let ghost ads = picked(entry_models(a_entries@), adds@);
    let ghost ds = picked(entry_models(d_entries@), dels@);
    let mut used: Vec<bool> = Vec::new();
    let mut z: usize = 0;
    while z < dels.len()
        invariant
            z <= dels@.len(),
            used@.len() == z,
            forall|j: int| 0 <= j < z ==> !(#[trigger] used@[j]),
        decreases dels@.len() - z,
    {
        used.push(false);
        z = z + 1;
    }
    let mut pairs: Vec<Option<usize>> = Vec::new();
    let mut i: usize = 0;
    proof {
        assert(ads.take(0) =~= Seq::<EntryModel>::empty());
        assert(opt_ints(pairs@) =~= pairing(ads.take(0), ds));
        assert(forall|j: int| unpaired(opt_ints(pairs@), j));
    }
    while i < adds.len()
        invariant
            within(adds@, a_entries@.len() as int),
            within(dels@, d_entries@.len() as int),
            ads == picked(entry_models(a_entries@), adds@),
            ds == picked(entry_models(d_entries@), dels@),
            i <= adds@.len(),
            pairs@.len() == i,
            used@.len() == dels@.len(),
            forall|j: int|
                0 <= j < used@.len() ==> #[trigger] used@[j] == !unpaired(opt_ints(pairs@), j),
            opt_ints(pairs@) == pairing(ads.take(i as int), ds),
            forall|i: int|
                0 <= i < pairs@.len() ==> (#[trigger] pairs@[i] matches Some(j) ==> j < dels@.len()),
        decreases adds@.len() - i,
    {
        let k = adds[i];
        let a = &a_entries[k];
        let ghost before = opt_ints(pairs@);
        let found = find_partner(a, d_entries, dels, &used, Ghost(before));
        proof {
            assert(ads[i as int] == a@);
            assert(ads.take(i as int + 1).drop_last() =~= ads.take(i as int));
            assert(ads.take(i as int + 1).last() == a@);
        }
        let ghost was = used@;
        if let Some(j) = found {
            used.set(j, true);
        }
        pairs.push(found);
        proof {
            let now = opt_ints(pairs@);
            let f: Option<int> = match found {
                Some(j) => Some(j as int),
                None => None,
            };
            assert(now =~= before.push(f));
            assert forall|j: int| 0 <= j < used@.len() implies #[trigger] used@[j] == !unpaired(now, j) by {
                assert(was[j] == !unpaired(before, j));
                if f == Some(j) {
                    assert(now[before.len() as int] == Some(j));
                } else {
                    if unpaired(before, j) {
                        assert forall|y: int| 0 <= y < now.len() implies #[trigger] now[y] != Some(j) by {
                            if y < before.len() {
                                assert(now[y] == before[y]);
                            }
                        }
                    } else {
                        let y = choose|y: int|
                            0 <= y < before.len() && !(#[trigger] before[y] != Some(j));
                        assert(now[y] == Some(j));
                    }
                }
            }
        }
        i = i + 1;
    }
    assert(ads.take(ads.len() as int) =~= ads);
    pairs
}

fn push_moves(
    ops: &mut Vec<Op>,
    a_entries: &Vec<Entry>,
    adds: &Vec<usize>,
    d_entries: &Vec<Entry>,
    dels: &Vec<usize>,
    pairs: &Vec<Option<usize>>,
    side: Side,
    reason: &str,
)
    requires
        within(adds@, a_entries@.len() as int),
        within(dels@, d_entries@.len() as int),
        opt_ints(pairs@) == pairing(
            picked(entry_models(a_entries@), adds@),
            picked(entry_models(d_entries@), dels@),
        ),
        forall|i: int|
            0 <= i < pairs@.len() ==> (#[trigger] pairs@[i] matches Some(j) ==> j < dels@.len()),
    ensures
        op_models(final(ops)@) == op_models(old(ops)@) + move_steps(
            picked(entry_models(a_entries@), adds@),
            picked(entry_models(d_entries@), dels@),
            side,
            reason@,
        ),
{
    let ghost ads = picked(entry_models(a_entries@), adds@);
    let ghost ds = picked(entry_models(d_entries@), dels@);
    let ghost ps = pairing(ads, ds);
    let ghost rule = move_rule(ads, ds, ps, side, reason@);
    let ghost start = op_models(ops@);
    proof {
        lemma_pairing_len(ads, ds);
        assert(opt_ints(pairs@).len() == ps.len());
    }
    let mut i: usize = 0;
    assert(start + gather(0, rule) =~= start);
    while i < adds.len()
        invariant
            within(adds@, a_entries@.len() as int),
            within(dels@, d_entries@.len() as int),
            ads == picked(entry_models(a_entries@), adds@),
            ds == picked(entry_models(d_entries@), dels@),
            opt_ints(pairs@) == ps,
            pairs@.len() == adds@.len(),
            forall|i: int|
                0 <= i < pairs@.len() ==> (#[trigger] pairs@[i] matches Some(j) ==> j < dels@.len()),
            rule == move_rule(ads, ds, ps, side, reason@),
            i <= adds@.len(),
            op_models(ops@) == start + gather(i as int, rule),
        decreases adds@.len() - i,
    {
        assert(opt_ints(pairs@)[i as int] == ps[i as int]);
        if let Some(j) = pairs[i] {
            let a = &a_entries[adds[i]];
            let d = &d_entries[dels[j]];
            let op = place_op(
                side,
                Action::Move,
                a.path.as_str(),
                Some(d.path.clone()),
                a.size,
                reason,
            );
            proof {
                assert(ads[i as int] == a@);
                assert(ds[j as int] == d@);
                lemma_op_push(ops@, op);
                assert(rule(i as int) == Some(op@));
                assert((start + gather(i as int, rule)).push(op@) =~= start + gather(
                    i as int + 1,
                    rule,
                ));
            }
            ops.push(op);
        } else {
            assert(rule(i as int) is None);
        }
        i = i + 1;
    }
}

proof fn lemma_pairing_len(adds: Seq<EntryModel>, dels: Seq<EntryModel>)
    ensures
        pairing(adds, dels).len() == adds.len(),
    decreases adds.len(),
{
    if adds.len() > 0 {
        lemma_pairing_len(adds.drop_last(), dels);
    }
}

/// The additions without a partner.
fn unmatched_adds(
    entries: &Vec<Entry>,
    adds: &Vec<usize>,
    pairs: &Vec<Option<usize>>,
    Ghost(ds): Ghost<Seq<EntryModel>>,
) -> (r: Vec<usize>)
    requires
        within(adds@, entries@.len() as int),
        opt_ints(pairs@) == pairing(picked(entry_models(entries@), adds@), ds),
    ensures
        within(r@, entries@.len() as int),
        picked(entry_models(entries@), r@) == added(picked(entry_models(entries@), adds@), ds),
{
    let ghost es = entry_models(entries@);
    let ghost ads = picked(es, adds@);
    let ghost ps = pairing(ads, ds);
    let ghost test = alone(ps);
    proof {
        lemma_pairing_len(ads, ds);
        assert(opt_ints(pairs@).len() == ps.len());
    }
    let mut out: Vec<usize> = Vec::new();
    let mut i: usize = 0;
    assert(picked(es, out@) =~= at(ads, select(0, test)));
    while i < adds.len()
        invariant
            within(adds@, entries@.len() as int),
            es == entry_models(entries@),
            ads == picked(es, adds@),
            opt_ints(pairs@) == ps,
            pairs@.len() == adds@.len(),
            test == alone(ps),
            i <= adds@.len(),
            within(out@, entries@.len() as int),
            picked(es, out@) == at(ads, select(i as int, test)),
        decreases adds@.len() - i,
    {
        let k = adds[i];
        proof {
            assert(opt_ints(pairs@)[i as int] == ps[i as int]);
            lemma_pick(es, ads, out@, i as int, test, k);
        }
        if pairs[i].is_none() {
            assert(test(i as int));
            out.push(k);
        } else {
            assert(!test(i as int));
        }
        i = i + 1;
    }
    out
}

/// The deletions that no addition took.
fn unmatched_dels(
    entries: &Vec<Entry>,
    dels: &Vec<usize>,
    pairs: &Vec<Option<usize>>,
    Ghost(ads): Ghost<Seq<EntryModel>>,
) -> (r: Vec<usize>)
    requires
        within(dels@, entries@.len() as int),
        opt_ints(pairs@) == pairing(ads, picked(entry_models(entries@), dels@)),
        forall|i: int|
            0 <= i < pairs@.len() ==> (#[trigger] pairs@[i] matches Some(j) ==> j < dels@.len()),
    ensures
        within(r@, entries@.len() as int),
        picked(entry_models(entries@), r@) == deleted(ads, picked(entry_models(entries@), dels@)),
{
    let ghost es = entry_models(entries@);
    let ghost ds = picked(es, dels@);
    let ghost ps = pairing(ads, ds);
    let ghost test = left_over(ps);
    let mut used: Vec<bool> = Vec::new();
    let mut z: usize = 0;
    while z < dels.len()
        invariant
            z <= dels@.len(),
            used@.len() == z,
            forall|j: int| 0 <= j < z ==> !(#[trigger] used@[j]),
        decreases dels@.len() - z,
    {
        used.push(false);
        z = z + 1;
    }
    let mut y: usize = 0;
    while y < pairs.len()
        invariant
            opt_ints(pairs@) == ps,
            forall|i: int|
                0 <= i < pairs@.len() ==> (#[trigger] pairs@[i] matches Some(j) ==> j < dels@.len()),
            used@.len() == dels@.len(),
            y <= pairs@.len(),
            forall|j: int|
                0 <= j < used@.len() ==> #[trigger] used@[j] == (exists|i: int|
                    0 <= i < y && #[trigger] ps[i] == Some(j)),
        decreases pairs@.len() - y,
    {
        assert(opt_ints(pairs@)[y as int] == ps[y as int]);
        let ghost was = used@;
        if let Some(j) = pairs[y] {
            used.set(j, true);
        }
        proof {
            assert forall|j: int| 0 <= j < used@.len() implies #[trigger] used@[j] == (exists|i: int|
                0 <= i < y + 1 && #[trigger] ps[i] == Some(j)) by {
                assert(was[j] == (exists|i: int| 0 <= i < y && #[trigger] ps[i] == Some(j)));
                if was[j] {
                    let i = choose|i: int| 0 <= i < y && #[trigger] ps[i] == Some(j);
                    assert(ps[i] == Some(j));
                }
                if ps[y as int] == Some(j) {
                    assert(used@[j]);
                } else {
                    assert(used@[j] == was[j]);
                }
            }
        }
        y = y + 1;
    }
    let mut out: Vec<usize> = Vec::new();
    let mut i: usize = 0;
    assert(picked(es, out@) =~= at(ds, select(0, test)));
    while i < dels.len()
        invariant
            within(dels@, entries@.len() as int),
            es == entry_models(entries@),
            ds == picked(es, dels@),
            opt_ints(pairs@) == ps,
            used@.len() == dels@.len(),
            forall|j: int|
                0 <= j < used@.len() ==> #[trigger] used@[j] == (exists|i: int|
                    0 <= i < pairs@.len() && #[trigger] ps[i] == Some(j)),
            test == left_over(ps),
            i <= dels@.len(),
            within(out@, entries@.len() as int),
            picked(es, out@) == at(ds, select(i as int, test)),
        decreases dels@.len() - i,
    {
        let k = dels[i];
        proof {
            assert(opt_ints(pairs@).len() == ps.len());
            lemma_pick(es, ds, out@, i as int, test, k);
            assert(used@[i as int] == !unpaired(ps, i as int));
        }
        if !used[i] {
            assert(test(i as int));
            out.push(k);
        } else {
            assert(!test(i as int));
        }
        i = i + 1;
    }
    out
}

fn push_dirs(ops: &mut Vec<Op>, s: &Files, t: &Files, ci: bool, Ghost(m): Ghost<Tables>)
    requires
        s.wf(EntryKind::Dir, ci),
        t.wf(EntryKind::Dir, ci),
        m.source == s.es(),
        m.target == t.es(),
        m.ci == ci,
    ensures
        op_models(final(ops)@) == op_models(old(ops)@) + m.dir_steps(),
{
    let ghost rows = m.t_dirs();
    let ghost rule = m.dir_rule();
    let ghost start = op_models(ops@);
    let n = t.len(Ghost(EntryKind::Dir), Ghost(ci));
    let mut x: usize = 0;
    assert(start + gather(0, rule) =~= start);
    while x < n
        invariant
            s.wf(EntryKind::Dir, ci),
            t.wf(EntryKind::Dir, ci),
            m.source == s.es(),
            m.target == t.es(),
            m.ci == ci,
            rows == m.t_dirs(),
            rule == m.dir_rule(),
            n == rows.len(),
            x <= n,
            op_models(ops@) == start + gather(x as int, rule),
        decreases n - x,
    {
        let (_i, te) = t.row(x, Ghost(EntryKind::Dir), Ghost(ci));
        if s.for_key(te, EntryKind::Dir, ci).is_none() {
            let op = remark_op(
                Side::Target,
                Action::DeleteDir,
                te.path.as_str(),
                "dir-gone-from-source",
            );
            proof {
                lemma_op_push(ops@, op);
                assert(rule(x as int) == Some(op@));
                assert((start + gather(x as int, rule)).push(op@) =~= start + gather(
                    x as int + 1,
                    rule,
                ));
            }
            ops.push(op);
        } else {
            assert(rule(x as int) is None);
        }
        x = x + 1;
    }
}

/// The table of the last sync, where there is one, is the one the model speaks of.
spec fn archive_is(a: Option<Files>, m: Tables) -> bool {
    &&& a matches Some(f) ==> f.wf(EntryKind::File, m.ci)
    &&& m.archive == match a {
        Some(f) => Some(f.es()),
        None => None,
    }
}

fn archived<'a>(a: &Option<Files<'a>>, e: &Entry, ci: bool, Ghost(m): Ghost<Tables>) -> (r: Option<
    &'a Entry,
>)
    requires
        archive_is(*a, m),
        m.ci == ci,
    ensures
        match r {
            Some(x) => m.a_file(e@) == Some(x@),
            None => m.a_file(e@) is None,
        },
{
    match a {
        Some(f) => f.for_key(e, EntryKind::File, ci),
        None => None,
    }
}

/// What a sync makes of a file that both sides have and that differs.
fn differing_op(
    se: &Entry,
    te: &Entry,
    a: &Option<Files>,
    newer_wins: bool,
    ci: bool,
    Ghost(m): Ghost<Tables>,
) -> (r: Op)
    requires
        archive_is(*a, m),
        m.ci == ci,
        m.newer_wins == newer_wins,
    ensures
        r@ == m.differing(se@, te@),
{
    if a.is_some() {
        let (s_same, t_same) = match archived(a, se, ci, Ghost(m)) {
            Some(r) => (files_equal(se, r), files_equal(te, r)),
            None => (false, false),
        };
        if s_same && !t_same {
            bring_op(Side::Source, Action::Update, se.path.as_str(), te, "target-changed")
        } else if t_same && !s_same {
            bring_op(Side::Target, Action::Update, te.path.as_str(), se, "source-changed")
        } else {
            remark_op(Side::Target, Action::Conflict, se.path.as_str(), "both-changed")
        }
    } else if newer_wins {
        if se.mtime_ms >= te.mtime_ms {
            bring_op(Side::Target, Action::Update, te.path.as_str(), se, "differs-newer-wins")
        } else {
            bring_op(Side::Source, Action::Update, se.path.as_str(), te, "differs-newer-wins")
        }
    } else {
        remark_op(Side::Target, Action::Conflict, se.path.as_str(), "differs-no-archive")
    }
}

/// Goes over the source files of a sync: the steps that follow at once, the files that were added, and
/// those that are to go.
fn sync_source(
    ops: &mut Vec<Op>,
    s: &Files,
    t: &Files,
    a: &Option<Files>,
    newer_wins: bool,
    ci: bool,
    Ghost(m): Ghost<Tables>,
) -> (r: (Vec<usize>, Vec<usize>))
    requires
        s.wf(EntryKind::File, ci),
        t.wf(EntryKind::File, ci),
        archive_is(*a, m),
        m.source == s.es(),
        m.target == t.es(),
        m.ci == ci,
        m.newer_wins == newer_wins,
    ensures
        op_models(final(ops)@) == op_models(old(ops)@) + gather(m.s_rows().len() as int, m.s_rule()),
        within(r.0@, s.es().len() as int),
        within(r.1@, s.es().len() as int),
        picked(s.es(), r.0@) == m.s_added(),
        picked(s.es(), r.1@) == m.s_doomed(),
{
    let ghost rows = m.s_rows();
    let ghost rule = m.s_rule();
    let ghost add_test = m.s_added_test();
    let ghost doom_test = m.s_doomed_test();
    let ghost start = op_models(ops@);
    let mut adds: Vec<usize> = Vec::new();
    let mut doomed: Vec<usize> = Vec::new();
    let n = s.len(Ghost(EntryKind::File), Ghost(ci));
    let mut x: usize = 0;
    proof {
        assert(start + gather(0, rule) =~= start);
        assert(picked(s.es(), adds@) =~= at(rows, select(0, add_test)));
        assert(picked(s.es(), doomed@) =~= at(rows, select(0, doom_test)));
    }
    while x < n
        invariant
            s.wf(EntryKind::File, ci),
            t.wf(EntryKind::File, ci),
            archive_is(*a, m),
            m.source == s.es(),
            m.target == t.es(),
            m.ci == ci,
            m.newer_wins == newer_wins,
            rows == m.s_rows(),
            rule == m.s_rule(),
            add_test == m.s_added_test(),
            doom_test == m.s_doomed_test(),
            n == rows.len(),
            x <= n,
            op_models(ops@) == start + gather(x as int, rule),
            within(adds@, s.es().len() as int),
            within(doomed@, s.es().len() as int),
            picked(s.es(), adds@) == at(rows, select(x as int, add_test)),
            picked(s.es(), doomed@) == at(rows, select(x as int, doom_test)),
        decreases n - x,
    {
        let (i, se) = s.row(x, Ghost(EntryKind::File), Ghost(ci));
        let ghost here = x as int;
        proof {
            lemma_pick(s.es(), rows, adds@, here, add_test, i);
            lemma_pick(s.es(), rows, doomed@, here, doom_test, i);
        }
        let mut step: Option<Op> = None;
        match t.for_key(se, EntryKind::File, ci) {
            Some(te) => {
                assert(!add_test(here));
                assert(!doom_test(here));
                if !files_equal(se, te) {
                    step = Some(differing_op(se, te, a, newer_wins, ci, Ghost(m)));
                }
            },
            None => {
                match archived(a, se, ci, Ghost(m)) {
                    Some(r) => {
                        assert(!add_test(here));
                        if files_equal(se, r) {
                            assert(doom_test(here));
                            doomed.push(i);
                        } else {
                            assert(!doom_test(here));
                            step =
                            Some(
                                remark_op(
                                    Side::Target,
                                    Action::Conflict,
                                    se.path.as_str(),
                                    "deleted-on-target-but-changed-on-source",
                                ),
                            );
                        }
                    },
                    None => {
                        assert(add_test(here));
                        assert(!doom_test(here));
                        adds.push(i);
                    },
                }
            },
        }
        match step {
            Some(op) => {
                proof {
                    lemma_op_push(ops@, op);
                    assert(rule(here) == Some(op@));
                    assert((start + gather(here, rule)).push(op@) =~= start + gather(here + 1, rule));
                }
                ops.push(op);
            },
            None => {
                assert(rule(here) is None);
            },
        }
        x = x + 1;
    }
    (adds, doomed)
}

/// Goes over the target files that the source has not.
fn sync_target(
    ops: &mut Vec<Op>,
    s: &Files,
    t: &Files,
    a: &Option<Files>,
    ci: bool,
    Ghost(m): Ghost<Tables>,
) -> (r: (Vec<usize>, Vec<usize>))
    requires
        s.wf(EntryKind::File, ci),
        t.wf(EntryKind::File, ci),
        archive_is(*a, m),
        m.source == s.es(),
        m.target == t.es(),
        m.ci == ci,
    ensures
        op_models(final(ops)@) == op_models(old(ops)@) + gather(m.t_rows().len() as int, m.t_rule()),
        within(r.0@, t.es().len() as int),
        within(r.1@, t.es().len() as int),
        picked(t.es(), r.0@) == m.t_added(),
        picked(t.es(), r.1@) == m.t_doomed(),
{
    let ghost rows = m.t_rows();
    let ghost rule = m.t_rule();
    let ghost add_test = m.t_added_test();
    let ghost doom_test = m.t_doomed_test();
    let ghost start = op_models(ops@);
    let mut adds: Vec<usize> = Vec::new();
    let mut doomed: Vec<usize> = Vec::new();
    let n = t.len(Ghost(EntryKind::File), Ghost(ci));
    let mut x: usize = 0;
    proof {
        assert(start + gather(0, rule) =~= start);
        assert(picked(t.es(), adds@) =~= at(rows, select(0, add_test)));
        assert(picked(t.es(), doomed@) =~= at(rows, select(0, doom_test)));
    }
    while x < n
        invariant
            s.wf(EntryKind::File, ci),
            t.wf(EntryKind::File, ci),
            archive_is(*a, m),
            m.source == s.es(),
            m.target == t.es(),
            m.ci == ci,
            rows == m.t_rows(),
            rule == m.t_rule(),
            add_test == m.t_added_test(),
            doom_test == m.t_doomed_test(),
            n == rows.len(),
            x <= n,
            op_models(ops@) == start + gather(x as int, rule),
            within(adds@, t.es().len() as int),
            within(doomed@, t.es().len() as int),
            picked(t.es(), adds@) == at(rows, select(x as int, add_test)),
            picked(t.es(), doomed@) == at(rows, select(x as int, doom_test)),
        decreases n - x,
    {
        let (i, te) = t.row(x, Ghost(EntryKind::File), Ghost(ci));
        let ghost here = x as int;
        proof {
            lemma_pick(t.es(), rows, adds@, here, add_test, i);
            lemma_pick(t.es(), rows, doomed@, here, doom_test, i);
        }
        let mut step: Option<Op> = None;
        if s.for_key(te, EntryKind::File, ci).is_some() {
            assert(!add_test(here));
            assert(!doom_test(here));
        } else {
            match archived(a, te, ci, Ghost(m)) {
                Some(r) => {
                    assert(!add_test(here));
                    if files_equal(te, r) {
                        assert(doom_test(here));
                        doomed.push(i);
                    } else {
                        assert(!doom_test(here));
                        step =
                        Some(
                            remark_op(
                                Side::Target,
                                Action::Conflict,
                                te.path.as_str(),
                                "deleted-on-source-but-changed-on-target",
                            ),
                        );
                    }
                },
                None => {
                    assert(add_test(here));
                    assert(!doom_test(here));
                    adds.push(i);
                },
            }
        }
        match step {
            Some(op) => {
                proof {
                    lemma_op_push(ops@, op);
                    assert(rule(here) == Some(op@));
                    assert((start + gather(here, rule)).push(op@) =~= start + gather(here + 1, rule));
                }
                ops.push(op);
            },
            None => {
                assert(rule(here) is None);
            },
        }
        x = x + 1;
    }
    (adds, doomed)
}

/// Notes for additions on both sides that share a hash.
fn push_hints(
    ops: &mut Vec<Op>,
    s: &Files,
    s_adds: &Vec<usize>,
    t: &Files,
    t_adds: &Vec<usize>,
    Ghost(m): Ghost<Tables>,
)
    requires
        within(s_adds@, s.es().len() as int),
        within(t_adds@, t.es().len() as int),
        picked(s.es(), s_adds@) == m.s_added(),
        picked(t.es(), t_adds@) == m.t_added(),
    ensures
        op_models(final(ops)@) == op_models(old(ops)@) + m.hint_steps(),
{
    let ghost rule = m.hint_rule();
    let ghost start = op_models(ops@);
    let ghost sa = m.s_added();
    let ghost ta = m.t_added();
    let mut x: usize = 0;
    proof {
        assert(start + gather(0, rule) =~= start);
        assert(picked(s.es(), s_adds@).len() == sa.len());
        assert(picked(t.es(), t_adds@).len() == ta.len());
    }
    while x < s_adds.len()
        invariant
            within(s_adds@, s.es().len() as int),
            within(t_adds@, t.es().len() as int),
            picked(s.es(), s_adds@) == sa,
            picked(t.es(), t_adds@) == ta,
            sa == m.s_added(),
            ta == m.t_added(),
            ta.len() == t_adds@.len(),
            sa.len() == s_adds@.len(),
            rule == m.hint_rule(),
            x <= s_adds@.len(),
            op_models(ops@) == start + gather(x as int, rule),
        decreases s_adds@.len() - x,
    {
        let a = &s.entries[s_adds[x]];
        proof {
            assert(picked(s.es(), s_adds@)[x as int] == a@);
        }
        let mut found: Option<usize> = None;
        let mut j: usize = t_adds.len();
        if a.hash.is_some() {
            while j > 0 && found.is_none()
                invariant
                    within(t_adds@, t.es().len() as int),
                    picked(t.es(), t_adds@) == ta,
                    ta.len() == t_adds@.len(),
                    a.hash is Some,
                    j <= t_adds@.len(),
                    match found {
                        Some(k) => k < t_adds@.len() && last_with_hash(ta, ta.len() as int, a@.hash)
                            == Some(k as int),
                        None => last_with_hash(ta, ta.len() as int, a@.hash) == last_with_hash(
                            ta,
                            j as int,
                            a@.hash,
                        ),
                    },
                decreases j,
            {
                let k: usize = j - 1;
                let e = &t.entries[t_adds[k]];
                assert(picked(t.es(), t_adds@)[k as int] == e@);
                if same_opt(&e.hash, &a.hash) {
                    found = Some(k);
                }
                j = k;
            }
        }
        match found {
            Some(k) => {
                let e = &t.entries[t_adds[k]];
                assert(picked(t.es(), t_adds@)[k as int] == e@);
                let op = place_op(
                    Side::Target,
                    Action::Note,
                    a.path.as_str(),
                    Some(e.path.clone()),
                    a.size,
                    "possible-move-needs-archive",
                );
                proof {
                    lemma_op_push(ops@, op);
                    assert(rule(x as int) == Some(op@));
                    assert((start + gather(x as int, rule)).push(op@) =~= start + gather(
                        x as int + 1,
                        rule,
                    ));
                }
                ops.push(op);
            },
            None => {
                assert(rule(x as int) is None);
            },
        }
        x = x + 1;
    }
}

/// A character that a name on Windows cannot hold.
pub open spec fn bad_on_windows(c: char) -> bool {
    c == '<' || c == '>' || c == ':' || c == '"' || c == '|' || c == '?' || c == '*' || c == '\\' || (
    c as u32) < 0x20
}

/// The first such character.
pub open spec fn first_bad(s: Seq<char>) -> Option<char>
    decreases s.len(),
{
    if s.len() == 0 {
        None
    } else if bad_on_windows(s[0]) {
        Some(s[0])
    } else {
        first_bad(s.skip(1))
    }
}

/// Why a segment cannot be created on Windows.
pub open spec fn segment_illegal(s: Seq<char>) -> Option<Seq<char>> {
    if s.len() == 0 {
        None
    } else if s.last() == '.' || s.last() == ' ' {
        Some("'"@ + s + "' ends with dot/space"@)
    } else if device_name(device_base(s), '1') {
        Some("reserved device name '"@ + s + "'"@)
    } else if first_bad(s) is Some {
        Some("invalid character "@ + debug_char(first_bad(s)->0) + " in '"@ + s + "'"@)
    } else {
        None
    }
}

/// Why a path cannot be created on Windows: the reason of its first bad segment.
pub open spec fn first_illegal(segments: Seq<Seq<char>>) -> Option<Seq<char>>
    decreases segments.len(),
{
    if segments.len() == 0 {
        None
    } else if segment_illegal(segments[0]) is Some {
        segment_illegal(segments[0])
    } else {
        first_illegal(segments.skip(1))
    }
}

fn find_bad(s: &[char]) -> (r: Option<char>)
    ensures
        r == first_bad(s@),
{
    let mut i: usize = 0;
    assert(s@.skip(0) =~= s@);
    while i < s.len()
        invariant
            i <= s@.len(),
            first_bad(s@) == first_bad(s@.skip(i as int)),
        decreases s@.len() - i,
    {
        let c = s[i];
        if c == '<' || c == '>' || c == ':' || c == '"' || c == '|' || c == '?' || c == '*' || c == '\\'
            || (c as u32) < 0x20 {
            return Some(c);
        }
        assert(s@.skip(i as int).skip(1) =~= s@.skip(i as int + 1));
        i = i + 1;
    }
    None
}

fn illegal_segment(segment: &[char]) -> (r: Option<String>)
    ensures
        opt_text(r) == segment_illegal(segment@),
{
    let n = segment.len();
    if n == 0 {
        return None;
    }
    let text = text_of(segment);
    if segment[n - 1] == '.' || segment[n - 1] == ' ' {
        let mut m = "'".to_owned();
        m.append(text.as_str());
        m.append("' ends with dot/space");
        return Some(m);
    }
    if is_device(segment, '1') {
        let mut m = "reserved device name '".to_owned();
        m.append(text.as_str());
        m.append("'");
        return Some(m);
    }
    if let Some(c) = find_bad(segment) {
        let mut m = "invalid character ".to_owned();
        let shown = debug_of_char(c);
        m.append(shown.as_str());
        m.append(" in '");
        m.append(text.as_str());
        m.append("'");
        return Some(m);
    }
    None
}

/// Why `rel` cannot be created on Windows.
pub fn win_invalid_reason(rel: &str) -> (r: Option<String>)
    ensures
        opt_text(r) == first_illegal(split(rel@, '/')),
{
    let v = chars_of(rel);
    let parts = split_chars(v.as_slice(), '/');
    let ghost segments = split(rel@, '/');
    let mut i: usize = 0;
    assert(segments.skip(0) =~= segments);
    while i < parts.len()
        invariant
            i <= parts@.len(),
            segments == split(rel@, '/'),
            char_lists(parts@) == segments,
            first_illegal(segments) == first_illegal(segments.skip(i as int)),
        decreases parts@.len() - i,
    {
        assert(char_lists(parts@)[i as int] == parts@[i as int]@);
        let f = illegal_segment(parts[i].as_slice());
        if f.is_some() {
            return f;
        }
        assert(segments.skip(i as int).skip(1) =~= segments.skip(i as int + 1));
        i = i + 1;
    }
    None
}

/// A step that would create a name which its side cannot hold becomes a conflict.
pub open spec fn legalized(op: OpModel, source_os: Seq<char>, target_os: Seq<char>) -> OpModel {
    let os = match op.side {
        Side::Target => target_os,
        Side::Source => source_os,
    };
    let fault = first_illegal(split(op.path, '/'));
    if (op.action == Action::Copy || op.action == Action::Move) && os == "windows"@ && fault is Some {
        OpModel { action: Action::Conflict, reason: "illegal-on-windows: "@ + fault->0, ..op }
    } else {
        op
    }
}

pub open spec fn all_legalized(ops: Seq<OpModel>, source_os: Seq<char>, target_os: Seq<char>) -> Seq<
    OpModel,
> {
    Seq::new(ops.len(), |i: int| legalized(ops[i], source_os, target_os))
}

fn legalize(ops: &mut Vec<Op>, source_os: &str, target_os: &str)
    ensures
        op_models(final(ops)@) == all_legalized(op_models(old(ops)@), source_os@, target_os@),
{
    let s_win = same(source_os, "windows");
    let t_win = same(target_os, "windows");
    let ghost start = op_models(ops@);
    let mut i: usize = 0;
    while i < ops.len()
        invariant
            s_win == (source_os@ == "windows"@),
            t_win == (target_os@ == "windows"@),
            ops@.len() == start.len(),
            i <= ops@.len(),
            forall|j: int|
                0 <= j < i ==> (#[trigger] ops@[j])@ == legalized(start[j], source_os@, target_os@),
            forall|j: int| i <= j < ops@.len() ==> (#[trigger] ops@[j])@ == start[j],
        decreases ops@.len() - i,
    {
        let creates = ops[i].action == Action::Copy || ops[i].action == Action::Move;
        let win = match ops[i].side {
            Side::Target => t_win,
            Side::Source => s_win,
        };
        if creates && win {
            if let Some(why) = win_invalid_reason(ops[i].path.as_str()) {
                let mut reason = "illegal-on-windows: ".to_owned();
                reason.append(why.as_str());
                let op = Op {
                    side: ops[i].side,
                    action: Action::Conflict,
                    path: ops[i].path.clone(),
                    from: copy_opt(&ops[i].from),
                    size: ops[i].size,
                    mtime_ms: ops[i].mtime_ms,
                    hash: copy_opt(&ops[i].hash),
                    link: copy_opt(&ops[i].link),
                    mode: ops[i].mode,
                    reason,
                };
                ops.set(i, op);
            }
        }
        i = i + 1;
    }
    assert(op_models(ops@) =~= all_legalized(start, source_os@, target_os@));
}

/// Moves come first, then copies and updates, deletions, directories, and what is only said.
pub open spec fn rank(a: Action) -> i64 {
    match a {
        Action::Move => 0,
        Action::Copy => 1,
        Action::Update => 1,
        Action::Chmod => 1,
        Action::Delete => 2,
        Action::DeleteDir => 3,
        Action::Conflict => 4,
        Action::Note => 4,
    }
}

/// How many slashes a path has.
pub open spec fn depth(path: Seq<char>) -> nat
    decreases path.len(),
{
    if path.len() == 0 {
        0
    } else {
        depth(path.drop_last()) + if path.last() == '/' {
            1nat
        } else {
            0nat
        }
    }
}

/// The depth as a number that can be held.
pub open spec fn depth_key(path: Seq<char>) -> int {
    if depth(path) <= i64::MAX {
        depth(path) as int
    } else {
        i64::MAX as int
    }
}

/// What steps are ordered by: rank, then path; deeper directories go first.
pub open spec fn op_key(op: OpModel) -> Seq<i64> {
    if op.action == Action::DeleteDir {
        seq![rank(op.action), (-depth_key(op.path)) as i64]
    } else {
        seq![rank(op.action)] + codes(op.path)
    }
}

pub open spec fn op_keys(ops: Seq<OpModel>) -> Seq<Seq<i64>> {
    Seq::new(ops.len(), |i: int| op_key(ops[i]))
}

/// `out` is `ops` in the order of a stable sort by [`op_key`].
pub open spec fn arranged(ops: Seq<OpModel>, out: Seq<OpModel>) -> bool {
    exists|p: Seq<usize>| #[trigger]
        stable_order(op_keys(ops), p) && out == Seq::new(p.len(), |i: int| ops[p[i] as int])
}

fn key_of_op(op: &Op) -> (r: Vec<i64>)
    ensures
        r@ == op_key(op@),
{
    let rank: i64 = match op.action {
        Action::Move => 0,
        Action::Copy => 1,
        Action::Update => 1,
        Action::Chmod => 1,
        Action::Delete => 2,
        Action::DeleteDir => 3,
        Action::Conflict => 4,
        Action::Note => 4,
    };
    let path = chars_of(op.path.as_str());
    let mut key: Vec<i64> = Vec::new();
    key.push(rank);
    if op.action == Action::DeleteDir {
        let mut d: i64 = 0;
        let mut i: usize = 0;
        assert(path@.take(0) =~= Seq::<char>::empty());
        while i < path.len()
            invariant
                i <= path@.len(),
                0 <= d,
                d == depth_key(path@.take(i as int)),
            decreases path@.len() - i,
        {
            assert(path@.take(i as int + 1).drop_last() =~= path@.take(i as int));
            if path[i] == '/' && d < i64::MAX {
                d = d + 1;
            }
            i = i + 1;
        }
        assert(path@.take(path@.len() as int) =~= path@);
        key.push(-d);
        assert(key@ =~= op_key(op@));
    } else {
        let mut c = codes_of(path.as_slice());
        key.append(&mut c);
        assert(key@ =~= op_key(op@));
    }
    key
}

/// Puts the steps in order.
fn arrange(ops: Vec<Op>) -> (r: Vec<Op>)
    ensures
        arranged(op_models(ops@), op_models(r@)),
{
    let mut keys: Vec<Vec<i64>> = Vec::new();
    let mut i: usize = 0;
    while i < ops.len()
        invariant
            i <= ops@.len(),
            keys@.len() == i,
            forall|j: int| 0 <= j < i ==> (#[trigger] keys@[j])@ == op_key(ops@[j]@),
        decreases ops@.len() - i,
    {
        keys.push(key_of_op(&ops[i]));
        i = i + 1;
    }
    let p = stable_sort(&keys);
    let ghost models = op_models(ops@);
    assert(key_views(keys@) =~= op_keys(models));
    let mut out: Vec<Op> = Vec::new();
    let mut k: usize = 0;
    while k < p.len()
        invariant
            stable_order(op_keys(models), p@),
            models == op_models(ops@),
            k <= p@.len(),
            out@.len() == k,
            forall|j: int| 0 <= j < k ==> (#[trigger] out@[j])@ == models[p@[j] as int],
        decreases p@.len() - k,
    {
        let i = p[k];
        let o = &ops[i];
        let op = Op {
            side: o.side,
            action: o.action,
            path: o.path.clone(),
            from: copy_opt(&o.from),
            size: o.size,
            mtime_ms: o.mtime_ms,
            hash: copy_opt(&o.hash),
            link: copy_opt(&o.link),
            mode: o.mode,
            reason: o.reason.clone(),
        };
        out.push(op);
        k = k + 1;
    }
    proof {
        let want = Seq::new(p@.len(), |i: int| models[p@[i] as int]);
        assert(op_models(out@) =~= want);
    }
    out
}

/// How many of the first `n` steps are conflicts.
pub open spec fn conflicts(ops: Seq<OpModel>, n: int) -> nat
    decreases n,
{
    if n <= 0 {
        0
    } else {
        conflicts(ops, n - 1) + if ops[n - 1].action == Action::Conflict {
            1nat
        } else {
            0nat
        }
    }
}

pub fn count_conflicts(ops: &Vec<Op>) -> (r: u64)
    ensures
        r == conflicts(op_models(ops@), ops@.len() as int),
{
    let mut c: u64 = 0;
    let mut i: usize = 0;
    while i < ops.len()
        invariant
            i <= ops@.len(),
            c <= i,
            c == conflicts(op_models(ops@), i as int),
        decreases ops@.len() - i,
    {
        assert(op_models(ops@)[i as int] == ops@[i as int]@);
        if ops[i].action == Action::Conflict {
            c = c + 1;
        }
        i = i + 1;
    }
    c
}

/// What a comparison of these snapshots works on.
pub open spec fn tables(
    source: Snapshot,
    target: Snapshot,
    archive: Option<&Snapshot>,
    newer_wins: bool,
    ci: bool,
) -> Tables {
    Tables {
        source: entry_models(source.entries@),
        target: entry_models(target.entries@),
        archive: match archive {
            Some(a) => Some(entry_models(a.entries@)),
            None => None,
        },
        ci,
        hashed: source.header.hashed && target.header.hashed,
        newer_wins,
    }
}

pub open spec fn known_mode(mode: Seq<char>) -> bool {
    mode == "mirror"@ || mode == "enrich"@ || mode == "sync"@
}

/// The plan for these tables: its steps, and the header that describes them.
pub open spec fn plan_of(
    source: Snapshot,
    target: Snapshot,
    mode: Seq<char>,
    archive: Option<&Snapshot>,
    newer_wins: bool,
    ci: bool,
    plan: Plan,
) -> bool {
    &&& arranged(
        all_legalized(
            tables(source, target, archive, newer_wins, ci).draft(mode),
            source.header.os@,
            target.header.os@,
        ),
        op_models(plan.ops@),
    )
    &&& plan.header.schema == SCHEMA
    &&& plan.header.kind@ == "plan"@
    &&& plan.header.mode@ == mode
    &&& plan.header.source_root@ == source.header.root@
    &&& plan.header.source_host@ == source.header.host@
    &&& plan.header.target_root@ == target.header.root@
    &&& plan.header.target_host@ == target.header.host@
    &&& plan.header.op_count == plan.ops@.len()
    &&& plan.header.conflict_count == conflicts(op_models(plan.ops@), plan.ops@.len() as int)
}

/// Compares two tables into a plan, which a reading of the clock dates.
pub fn compare(
    source: &Snapshot,
    target: &Snapshot,
    mode: &str,
    archive: Option<&Snapshot>,
    resolve_newer: bool,
    copts: &CompareOptions,
) -> (r: Plan)
    requires
        known_mode(mode@),
    ensures
        plan_of(*source, *target, mode@, archive, resolve_newer, copts.case_insensitive, r),
        clock_shows(r.header.generated_at_ms),
{
    compare_at(source, target, mode, archive, resolve_newer, copts, now_ms())
}

/// As [`compare`], with the time that the plan is dated by.
pub fn compare_at(
    source: &Snapshot,
    target: &Snapshot,
    mode: &str,
    archive: Option<&Snapshot>,
    resolve_newer: bool,
    copts: &CompareOptions,
    generated_at_ms: u64,
) -> (r: Plan)
    requires
        known_mode(mode@),
    ensures
        plan_of(*source, *target, mode@, archive, resolve_newer, copts.case_insensitive, r),
        r.header.generated_at_ms == generated_at_ms,
{
    let ci = copts.case_insensitive;
    let ghost m = tables(*source, *target, archive, resolve_newer, ci);
    let hashed = source.header.hashed && target.header.hashed;
    let s = Files::load(&source.entries, EntryKind::File, ci);
    let t = Files::load(&target.entries, EntryKind::File, ci);
    let mut ops: Vec<Op> = Vec::new();
    assert(op_models(ops@) =~= Seq::<OpModel>::empty());
    push_twins(&mut ops, &s, Side::Source, Ghost(m));
    push_twins(&mut ops, &t, Side::Target, Ghost(m));
    let ghost twins = m.twin_steps(m.source, Side::Source) + m.twin_steps(m.target, Side::Target);
    assert(op_models(ops@) =~= twins);
    if same(mode, "mirror") {
        mirror_ops(&mut ops, source, target, &s, &t, hashed, ci, Ghost(m));
    } else if same(mode, "enrich") {
        let adds = push_updates(&mut ops, &s, &t, false, ci, Ghost(m));
        push_copies(&mut ops, s.entries, &adds, Side::Target, "only-in-source");
        assert(op_models(ops@) =~= twins + m.enrich_steps());
    } else {
        let a: Option<Files> = match archive {
            Some(x) => Some(Files::load(&x.entries, EntryKind::File, ci)),
            None => None,
        };
        sync_ops(&mut ops, &s, &t, &a, hashed, resolve_newer, ci, Ghost(m));
    }
    legalize(&mut ops, source.header.os.as_str(), target.header.os.as_str());
    let ops = arrange(ops);
    let conflict_count = count_conflicts(&ops);
    let op_count: u64 = ops.len() as u64;
    Plan {
        header: PlanHeader {
            schema: SCHEMA,
            kind: "plan".to_owned(),
            mode: mode.to_owned(),
            generated_at_ms,
            source_root: source.header.root.clone(),
            source_host: source.header.host.clone(),
            target_root: target.header.root.clone(),
            target_host: target.header.host.clone(),
            op_count,
            conflict_count,
        },
        ops,
    }
}

fn mirror_ops(
    ops: &mut Vec<Op>,
    source: &Snapshot,
    target: &Snapshot,
    s: &Files,
    t: &Files,
    hashed: bool,
    ci: bool,
    Ghost(m): Ghost<Tables>,
)
    requires
        s.wf(EntryKind::File, ci),
        t.wf(EntryKind::File, ci),
        m.source == s.es(),
        m.target == t.es(),
        m.source == entry_models(source.entries@),
        m.target == entry_models(target.entries@),
        m.ci == ci,
        m.hashed == hashed,
    ensures
        op_models(final(ops)@) == op_models(old(ops)@) + m.mirror_steps(),
{
    let ghost start = op_models(ops@);
    let adds = push_updates(ops, s, t, true, ci, Ghost(m));
    let dels = only_mine(t, s, ci);
    assert(picked(t.es(), dels@) == m.t_only());
    if hashed {
        let pairs = detect_moves(s.entries, &adds, t.entries, &dels);
        push_moves(
            ops,
            s.entries,
            &adds,
            t.entries,
            &dels,
            &pairs,
            Side::Target,
            "move-detected-by-hash",
        );
        let rest_adds = unmatched_adds(s.entries, &adds, &pairs, Ghost(m.t_only()));
        let rest_dels = unmatched_dels(t.entries, &dels, &pairs, Ghost(m.s_only()));
        push_copies(ops, s.entries, &rest_adds, Side::Target, "only-in-source");
        push_deletes(ops, t.entries, &rest_dels, Side::Target, "gone-from-source");
    } else {
        push_copies(ops, s.entries, &adds, Side::Target, "only-in-source");
        push_deletes(ops, t.entries, &dels, Side::Target, "gone-from-source");
    }
    let s_dirs = Files::load(&source.entries, EntryKind::Dir, ci);
    let t_dirs = Files::load(&target.entries, EntryKind::Dir, ci);
    push_dirs(ops, &s_dirs, &t_dirs, ci, Ghost(m));
    assert(op_models(ops@) =~= start + m.mirror_steps());
}

proof fn lemma_regroup_7(
    s: Seq<OpModel>,
    a: Seq<OpModel>,
    b: Seq<OpModel>,
    c: Seq<OpModel>,
    d: Seq<OpModel>,
    e: Seq<OpModel>,
    f: Seq<OpModel>,
    g: Seq<OpModel>,
)
    ensures
        s + a + b + c + d + e + f + g == s + (a + b + c + d + e + f + g),
{
    assert(s + a + b + c + d + e + f + g =~= s + (a + b + c + d + e + f + g));
}

proof fn lemma_regroup_8(
    s: Seq<OpModel>,
    a: Seq<OpModel>,
    b: Seq<OpModel>,
    c: Seq<OpModel>,
    d: Seq<OpModel>,
    e: Seq<OpModel>,
    f: Seq<OpModel>,
    g: Seq<OpModel>,
    h: Seq<OpModel>,
)
    ensures
        s + a + b + c + d + e + f + g + h == s + (a + b + c + d + e + f + g + h),
{
    assert(s + a + b + c + d + e + f + g + h =~= s + (a + b + c + d + e + f + g + h));
}

fn sync_ops(
    ops: &mut Vec<Op>,
    s: &Files,
    t: &Files,
    a: &Option<Files>,
    hashed: bool,
    newer_wins: bool,
    ci: bool,
    Ghost(m): Ghost<Tables>,
)
    requires
        s.wf(EntryKind::File, ci),
        t.wf(EntryKind::File, ci),
        archive_is(*a, m),
        m.source == s.es(),
        m.target == t.es(),
        m.ci == ci,
        m.hashed == hashed,
        m.newer_wins == newer_wins,
    ensures
        op_models(final(ops)@) == op_models(old(ops)@) + m.sync_steps(),
{
    let ghost start = op_models(ops@);
    let (s_adds, s_doomed) = sync_source(ops, s, t, a, newer_wins, ci, Ghost(m));
    let (t_adds, t_doomed) = sync_target(ops, s, t, a, ci, Ghost(m));
    if a.is_some() && hashed {
        let on_t = detect_moves(s.entries, &s_adds, t.entries, &t_doomed);
        push_moves(
            ops,
            s.entries,
            &s_adds,
            t.entries,
            &t_doomed,
            &on_t,
            Side::Target,
            "move-on-source-replayed",
        );
        let on_s = detect_moves(t.entries, &t_adds, s.entries, &s_doomed);
        push_moves(
            ops,
            t.entries,
            &t_adds,
            s.entries,
            &s_doomed,
            &on_s,
            Side::Source,
            "move-on-target-replayed",
        );
        let rest_s = unmatched_adds(s.entries, &s_adds, &on_t, Ghost(m.t_doomed()));
        let rest_t = unmatched_adds(t.entries, &t_adds, &on_s, Ghost(m.s_doomed()));
        let gone_t = unmatched_dels(t.entries, &t_doomed, &on_t, Ghost(m.s_added()));
        let gone_s = unmatched_dels(s.entries, &s_doomed, &on_s, Ghost(m.t_added()));
        push_copies(ops, s.entries, &rest_s, Side::Target, "added-on-source");
        push_copies(ops, t.entries, &rest_t, Side::Source, "added-on-target");
        push_deletes(ops, t.entries, &gone_t, Side::Target, "deleted-on-source");
        push_deletes(ops, s.entries, &gone_s, Side::Source, "deleted-on-target");
        proof {
            lemma_regroup_8(
                start,
                gather(m.s_rows().len() as int, m.s_rule()),
                gather(m.t_rows().len() as int, m.t_rule()),
                move_steps(m.s_added(), m.t_doomed(), Side::Target, "move-on-source-replayed"@),
                move_steps(m.t_added(), m.s_doomed(), Side::Source, "move-on-target-replayed"@),
                copy_steps(added(m.s_added(), m.t_doomed()), Side::Target, "added-on-source"@),
                copy_steps(added(m.t_added(), m.s_doomed()), Side::Source, "added-on-target"@),
                delete_steps(deleted(m.s_added(), m.t_doomed()), Side::Target, "deleted-on-source"@),
                delete_steps(deleted(m.t_added(), m.s_doomed()), Side::Source, "deleted-on-target"@),
            );
        }
    } else {
        let ghost hints = if hashed {
            m.hint_steps()
        } else {
            Seq::empty()
        };
        let ghost before = op_models(ops@);
        if hashed {
            push_hints(ops, s, &s_adds, t, &t_adds, Ghost(m));
        }
        assert(op_models(ops@) =~= before + hints);
        push_copies(ops, s.entries, &s_adds, Side::Target, "only-in-source");
        push_copies(ops, t.entries, &t_adds, Side::Source, "only-in-target");
        push_deletes(ops, t.entries, &t_doomed, Side::Target, "deleted-on-source");
        push_deletes(ops, s.entries, &s_doomed, Side::Source, "deleted-on-target");
        proof {
            lemma_regroup_7(
                start,
                gather(m.s_rows().len() as int, m.s_rule()),
                gather(m.t_rows().len() as int, m.t_rule()),
                hints,
                copy_steps(m.s_added(), Side::Target, "only-in-source"@),
                copy_steps(m.t_added(), Side::Source, "only-in-target"@),
                delete_steps(m.t_doomed(), Side::Target, "deleted-on-source"@),
                delete_steps(m.s_doomed(), Side::Source, "deleted-on-target"@),
            );
        }
    }
}

} // verus!
