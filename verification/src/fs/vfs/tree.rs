//! A tree of entries held in memory, by path.
use vstd::prelude::*;
use crate::order::{
    lemma_text_irreflexive, lemma_text_total, lemma_text_transitive, text_before, text_lt,
};
use crate::strings::same;
use crate::table::{opt_text, EntryKind};

verus! {

/// One entry.
pub struct FNode {
    pub kind: EntryKind,
    pub size: u64,
    pub mtime_ms: i64,
    pub mode: Option<u32>,
    pub link: Option<String>,
    /// The bytes that were written; `None` where they are generated.
    pub content: Option<Vec<u8>>,
}

pub struct NodeModel {
    pub kind: EntryKind,
    pub size: u64,
    pub mtime_ms: i64,
    pub mode: Option<u32>,
    pub link: Option<Seq<char>>,
    pub content: Option<Seq<u8>>,
}

pub open spec fn opt_bytes(o: Option<Vec<u8>>) -> Option<Seq<u8>> {
    match o {
        Some(b) => Some(b@),
        None => None,
    }
}

impl View for FNode {
    type V = NodeModel;

    open spec fn view(&self) -> NodeModel {
        NodeModel {
            kind: self.kind,
            size: self.size,
            mtime_ms: self.mtime_ms,
            mode: self.mode,
            link: opt_text(self.link),
            content: opt_bytes(self.content),
        }
    }
}

impl NodeModel {
    /// Written bytes are as many as the size says.
    pub open spec fn sound(self) -> bool {
        self.content matches Some(b) ==> b.len() == self.size
    }
}

/// A directory that nothing is known of.
pub open spec fn dir_model() -> NodeModel {
    NodeModel {
        kind: EntryKind::Dir,
        size: 0,
        mtime_ms: 0,
        mode: Some(0o755),
        link: None,
        content: None,
    }
}

pub fn dir_node() -> (r: FNode)
    ensures
        r@ == dir_model(),
{
    FNode { kind: EntryKind::Dir, size: 0, mtime_ms: 0, mode: Some(0o755), link: None, content: None }
}

/// Texts that only ever get later.
pub open spec fn ascending(keys: Seq<Seq<char>>) -> bool {
    forall|i: int, j: int|
        0 <= i < j < keys.len() ==> text_lt(#[trigger] keys[i], #[trigger] keys[j])
}

spec fn row_keys(rows: Seq<(String, FNode)>) -> Seq<Seq<char>> {
    Seq::new(rows.len(), |i: int| rows[i].0@)
}

spec fn held(rows: Seq<(String, FNode)>, k: Seq<char>) -> bool {
    exists|i: int| 0 <= i < rows.len() && #[trigger] rows[i].0@ == k
}

spec fn row_of(rows: Seq<(String, FNode)>, k: Seq<char>) -> int {
    choose|i: int| 0 <= i < rows.len() && #[trigger] rows[i].0@ == k
}

spec fn rows_map(rows: Seq<(String, FNode)>) -> Map<Seq<char>, NodeModel> {
    Map::new(|k: Seq<char>| held(rows, k), |k: Seq<char>| rows[row_of(rows, k)].1@)
}

spec fn rows_ok(rows: Seq<(String, FNode)>) -> bool {
    &&& ascending(row_keys(rows))
    &&& forall|i: int| 0 <= i < rows.len() ==> (#[trigger] rows[i].1@).sound()
}

/// Entries by path, each path once.
pub struct Tree {
    rows: Vec<(String, FNode)>,
}

impl View for Tree {
    type V = Map<Seq<char>, NodeModel>;

    closed spec fn view(&self) -> Map<Seq<char>, NodeModel> {
        rows_map(self.rows@)
    }
}

proof fn lemma_row(rows: Seq<(String, FNode)>, i: int)
    requires
        ascending(row_keys(rows)),
        0 <= i < rows.len(),
    ensures
        rows_map(rows).dom().contains(rows[i].0@),
        rows_map(rows)[rows[i].0@] == rows[i].1@,
        row_of(rows, rows[i].0@) == i,
{
    let k = rows[i].0@;
    let j = row_of(rows, k);
    let keys = row_keys(rows);
    assert(rows[i].0@ == k);
    assert(keys[i] == k && keys[j] == k);
    lemma_text_irreflexive(k);
}

/// An entry put at the place where its path belongs.
proof fn lemma_inserted(rows: Seq<(String, FNode)>, i: int, row: (String, FNode))
    requires
        rows_ok(rows),
        row.1@.sound(),
        0 <= i <= rows.len(),
        forall|j: int| 0 <= j < i ==> text_lt(#[trigger] rows[j].0@, row.0@),
        forall|j: int| i <= j < rows.len() ==> text_lt(row.0@, #[trigger] rows[j].0@),
    ensures
        rows_ok(rows.insert(i, row)),
        rows_map(rows.insert(i, row)) == rows_map(rows).insert(row.0@, row.1@),
{
    let now = rows.insert(i, row);
    let keys = row_keys(rows);
    let nk = row_keys(now);
    assert forall|a: int, b: int| 0 <= a < b < nk.len() implies text_lt(
        #[trigger] nk[a],
        #[trigger] nk[b],
    ) by {
        let x = if a < i {
            a
        } else {
            a - 1
        };
        let y = if b < i {
            b
        } else {
            b - 1
        };
        if a != i {
            assert(nk[a] == keys[x]);
            assert(keys[x] == rows[x].0@);
        }
        if b != i {
            assert(nk[b] == keys[y]);
            assert(keys[y] == rows[y].0@);
        }
    }
    assert forall|a: int| 0 <= a < now.len() implies (#[trigger] now[a].1@).sound() by {
        if a < i {
            assert(now[a] == rows[a]);
        } else if a > i {
            assert(now[a] == rows[a - 1]);
        }
    }
    let left = rows_map(now);
    let right = rows_map(rows).insert(row.0@, row.1@);
    assert forall|k: Seq<char>| left.dom().contains(k) <==> right.dom().contains(k) by {
        if held(now, k) {
            let a = row_of(now, k);
            if a < i {
                assert(rows[a].0@ == k);
            } else if a > i {
                assert(rows[a - 1].0@ == k);
            }
        }
        if held(rows, k) {
            let a = row_of(rows, k);
            if a < i {
                assert(now[a].0@ == k);
            } else {
                assert(now[a + 1].0@ == k);
            }
        }
        if k == row.0@ {
            assert(now[i].0@ == k);
        }
    }
    assert forall|k: Seq<char>| left.dom().contains(k) implies left[k] == right[k] by {
        let a = row_of(now, k);
        lemma_row(now, a);
        if a == i {
        } else if a < i {
            lemma_row(rows, a);
            lemma_text_irreflexive(k);
        } else {
            lemma_row(rows, a - 1);
            lemma_text_irreflexive(k);
        }
    }
    assert(left =~= right);
}

proof fn lemma_removed(rows: Seq<(String, FNode)>, i: int)
    requires
        rows_ok(rows),
        0 <= i < rows.len(),
    ensures
        rows_ok(rows.remove(i)),
        rows_map(rows.remove(i)) == rows_map(rows).remove(rows[i].0@),
{
    let now = rows.remove(i);
    let gone = rows[i].0@;
    let keys = row_keys(rows);
    let nk = row_keys(now);
    assert forall|a: int, b: int| 0 <= a < b < nk.len() implies text_lt(
        #[trigger] nk[a],
        #[trigger] nk[b],
    ) by {
        let x = if a < i {
            a
        } else {
            a + 1
        };
        let y = if b < i {
            b
        } else {
            b + 1
        };
        assert(nk[a] == keys[x]);
        assert(nk[b] == keys[y]);
    }
    assert forall|a: int| 0 <= a < now.len() implies (#[trigger] now[a].1@).sound() by {
        if a < i {
            assert(now[a] == rows[a]);
        } else {
            assert(now[a] == rows[a + 1]);
        }
    }
    let left = rows_map(now);
    let right = rows_map(rows).remove(gone);
    assert forall|k: Seq<char>| left.dom().contains(k) <==> right.dom().contains(k) by {
        if held(now, k) {
            let a = row_of(now, k);
            let x = if a < i {
                a
            } else {
                a + 1
            };
            assert(rows[x].0@ == k);
            lemma_row(rows, x);
            lemma_row(rows, i);
        }
        if held(rows, k) && k != gone {
            let a = row_of(rows, k);
            assert(a != i);
            if a < i {
                assert(now[a].0@ == k);
            } else {
                assert(now[a - 1].0@ == k);
            }
        }
    }
    assert forall|k: Seq<char>| left.dom().contains(k) implies left[k] == right[k] by {
        let a = row_of(now, k);
        let x = if a < i {
            a
        } else {
            a + 1
        };
        assert(now[a] == rows[x]);
        lemma_row(now, a);
        lemma_row(rows, x);
    }
    assert(left =~= right);
}

proof fn lemma_replaced(rows: Seq<(String, FNode)>, i: int, row: (String, FNode))
    requires
        rows_ok(rows),
        0 <= i < rows.len(),
        row.0@ == rows[i].0@,
        row.1@.sound(),
    ensures
        rows_ok(rows.update(i, row)),
        rows_map(rows.update(i, row)) == rows_map(rows).insert(row.0@, row.1@),
{
    let now = rows.update(i, row);
    assert(row_keys(now) =~= row_keys(rows));
    assert forall|a: int| 0 <= a < now.len() implies (#[trigger] now[a].1@).sound() by {
        if a != i {
            assert(now[a] == rows[a]);
        }
    }
    let left = rows_map(now);
    let right = rows_map(rows).insert(row.0@, row.1@);
    assert forall|k: Seq<char>| left.dom().contains(k) <==> right.dom().contains(k) by {
        if held(now, k) {
            let a = row_of(now, k);
            assert(rows[a].0@ == k);
        }
        if held(rows, k) {
            let a = row_of(rows, k);
            assert(now[a].0@ == k);
        }
        if k == row.0@ {
            assert(now[i].0@ == k);
        }
    }
    assert forall|k: Seq<char>| left.dom().contains(k) implies left[k] == right[k] by {
        let a = row_of(now, k);
        lemma_row(now, a);
        lemma_row(rows, a);
        if a != i {
            lemma_row(now, i);
        }
    }
    assert(left =~= right);
}

impl Tree {
    #[verifier::type_invariant]
    spec fn ok(&self) -> bool {
        rows_ok(self.rows@)
    }

    /// The paths in order.
    pub closed spec fn keys(&self) -> Seq<Seq<char>> {
        row_keys(self.rows@)
    }

    pub fn new() -> (r: Tree)
        ensures
            r@ == Map::<Seq<char>, NodeModel>::empty(),
    {
        let rows: Vec<(String, FNode)> = Vec::new();
        let t = Tree { rows };
        assert(t@ =~= Map::<Seq<char>, NodeModel>::empty());
        t
    }

    /// How many entries there are.
    pub fn len(&self) -> (n: usize)
        ensures
            n == self.keys().len(),
            ascending(self.keys()),
            forall|k: Seq<char>| #[trigger] self@.dom().contains(k) <==> self.keys().contains(k),
            forall|k: Seq<char>| #[trigger] self@.dom().contains(k) ==> self@[k].sound(),
    {
        proof {
            use_type_invariant(self);
            let rows = self.rows@;
            assert forall|k: Seq<char>| #[trigger] self@.dom().contains(k) <==> self.keys().contains(k) by {
                if held(rows, k) {
                    let i = row_of(rows, k);
                    assert(self.keys()[i] == k);
                }
                if self.keys().contains(k) {
                    let i = choose|i: int| 0 <= i < self.keys().len() && self.keys()[i] == k;
                    assert(rows[i].0@ == k);
                }
            }
            assert forall|k: Seq<char>| #[trigger] self@.dom().contains(k) implies self@[k].sound() by {
                let i = row_of(rows, k);
                assert(rows[i].0@ == k);
            }
        }
        self.rows.len()
    }

    /// The path at a place in the order.
    pub fn key(&self, i: usize) -> (r: &String)
        requires
            i < self.keys().len(),
        ensures
            r@ == self.keys()[i as int],
            self@.dom().contains(r@),
    {
        proof {
            use_type_invariant(self);
            lemma_row(self.rows@, i as int);
        }
        &self.rows[i].0
    }

    /// The entry at a place in the order.
    pub fn node(&self, i: usize) -> (r: &FNode)
        requires
            i < self.keys().len(),
        ensures
            self@.dom().contains(self.keys()[i as int]),
            r@ == self@[self.keys()[i as int]],
            r@.sound(),
    {
        proof {
            use_type_invariant(self);
            lemma_row(self.rows@, i as int);
        }
        &self.rows[i].1
    }

    /// The place of a path.
    pub fn find(&self, key: &str) -> (r: Option<usize>)
        ensures
            match r {
                Some(i) => i < self.keys().len() && self.keys()[i as int] == key@
                    && self@.dom().contains(key@),
                None => !self@.dom().contains(key@),
            },
    {
        proof {
            use_type_invariant(self);
        }
        let mut i: usize = 0;
        while i < self.rows.len()
            invariant
                i <= self.rows@.len(),
                forall|j: int| 0 <= j < i ==> #[trigger] self.rows@[j].0@ != key@,
            decreases self.rows@.len() - i,
        {
            if same(self.rows[i].0.as_str(), key) {
                assert(self.rows@[i as int].0@ == key@);
                return Some(i);
            }
            i = i + 1;
        }
        None
    }

    /// The entry of a path.
    pub fn get(&self, key: &str) -> (r: Option<&FNode>)
        ensures
            match r {
                Some(n) => self@.dom().contains(key@) && self@[key@] == n@ && n@.sound(),
                None => !self@.dom().contains(key@),
            },
    {
        match self.find(key) {
            Some(i) => Some(self.node(i)),
            None => None,
        }
    }

    /// Puts an entry, in place of the one that has its path.
    pub fn insert(&mut self, key: String, node: FNode)
        requires
            node@.sound(),
        ensures
            final(self)@ == old(self)@.insert(key@, node@),
    {
        proof {
            use_type_invariant(&*self);
        }
        let mut rows: Vec<(String, FNode)> = Vec::new();
        std::mem::swap(&mut rows, &mut self.rows);
        let ghost before = rows@;
        let mut i: usize = 0;
        while i < rows.len() && text_before(rows[i].0.as_str(), key.as_str())
            invariant
                rows@ == before,
                i <= before.len(),
                forall|j: int| 0 <= j < i ==> text_lt(#[trigger] before[j].0@, key@),
            decreases before.len() - i,
        {
            i = i + 1;
        }
        if i < rows.len() && same(rows[i].0.as_str(), key.as_str()) {
            proof {
                lemma_replaced(before, i as int, (key, node));
            }
            rows.set(i, (key, node));
        } else {
            proof {
                let keys = row_keys(before);
                assert forall|j: int| i <= j < before.len() implies text_lt(
                    key@,
                    #[trigger] before[j].0@,
                ) by {
                    lemma_text_total(key@, before[i as int].0@);
                    assert(keys[i as int] == before[i as int].0@);
                    assert(keys[j] == before[j].0@);
                    if j > i {
                        lemma_text_transitive(key@, keys[i as int], keys[j]);
                    }
                }
                lemma_inserted(before, i as int, (key, node));
            }
            rows.insert(i, (key, node));
        }
        self.rows = rows;
    }

    /// Takes the entry of a path out.
    pub fn remove(&mut self, key: &str) -> (r: Option<FNode>)
        ensures
            final(self)@ == old(self)@.remove(key@),
            match r {
                Some(n) => old(self)@.dom().contains(key@) && n@ == old(self)@[key@] && n@.sound(),
                None => !old(self)@.dom().contains(key@),
            },
    {
        proof {
            use_type_invariant(&*self);
        }
        match self.find(key) {
            Some(i) => {
                let mut rows: Vec<(String, FNode)> = Vec::new();
                std::mem::swap(&mut rows, &mut self.rows);
                proof {
                    lemma_removed(rows@, i as int);
                    lemma_row(rows@, i as int);
                }
                let row = rows.remove(i);
                self.rows = rows;
                Some(row.1)
            },
            None => {
                assert(self@.remove(key@) =~= self@);
                None
            },
        }
    }
}

} // verus!
