//! Path filter.
//!
//! - Case is ignored; `/` and `\` are the same.
//! - `*` matches any run of characters, across levels; `?` matches one character, not `/`.
//! - A trailing `/` or `/*` means a directory with everything in it; a trailing `:` files only.
//! - A leading `/` anchors at the root; `*/abc` also matches `abc` at the root.
//! - An exclude phrase that begins with `!` is an exception: what it matches is let through.
//! - What is `deletable` is not synced, but does not keep its parent directory from being deleted.
use vstd::prelude::*;
use vstd::utf8::is_ascii_chars;
use crate::atomic::{is_temp_rel, temp_rel};
use crate::foundation::names::{
    internal_path, internal_segment, self_exclude_phrases, APP_DIR, LOCK_NAME, MARKER_NAME,
    TEMP_PREFIX, VERSION_STORE_DIR,
};
use crate::foundation::path::{base_of, parent_of};
use crate::foundation::text::{ascii_uppered, to_uppercase, uppercase};
use crate::strings::{
    carries, chars_of, find, first_index, last_index, lemma_first_index, lemma_last_index, lemma_split,
    replace_char, replaced, rfind, same, same_chars, slice, split, starts_with, text_of, texts, trim, trimmed,
    white,
};

verus! {

/// Whether one mask character accepts one path character.
pub open spec fn accepts(m: char, p: char) -> bool {
    if m == '?' {
        p != '/'
    } else {
        p == m
    }
}

/// Whether `mask` matches `path`: all of it, or, with `allow_parent`, one of its parents.
pub open spec fn glob(mask: Seq<char>, path: Seq<char>, allow_parent: bool) -> bool
    decreases mask.len() + path.len(),
{
    if mask.len() == 0 {
        path.len() == 0 || (allow_parent && path[0] == '/')
    } else if mask[0] == '*' {
        ||| glob(mask.skip(1), path, allow_parent)
        ||| path.len() > 0 && glob(mask, path.skip(1), allow_parent)
    } else {
        &&& path.len() > 0
        &&& accepts(mask[0], path[0])
        &&& glob(mask.skip(1), path.skip(1), allow_parent)
    }
}

/// Whether something strictly below `path` may match `mask`.
pub open spec fn begins(mask: Seq<char>, path: Seq<char>) -> bool
    decreases mask.len(),
{
    if mask.len() == 0 {
        false
    } else if mask[0] == '*' {
        true
    } else if mask[0] == '?' {
        path.len() > 0 && path[0] != '/' && begins(mask.skip(1), path.skip(1))
    } else if path.len() == 0 {
        mask[0] == '/' && mask.len() > 1
    } else {
        path[0] == mask[0] && begins(mask.skip(1), path.skip(1))
    }
}

/// A star stands for any run of characters, the empty one included.
pub proof fn a_star_spans_any_run(mask: Seq<char>, path: Seq<char>, allow_parent: bool)
    requires
        mask.len() > 0,
        mask[0] == '*',
    ensures
        glob(mask, path, allow_parent) <==> exists|k: int|
            0 <= k <= path.len() && #[trigger] glob(mask.skip(1), path.skip(k), allow_parent),
    decreases path.len(),
{
    assert(path.skip(0) =~= path);
    if path.len() > 0 {
        let p = path.skip(1);
        a_star_spans_any_run(mask, p, allow_parent);
        if glob(mask, p, allow_parent) {
            let k = choose|k: int|
                0 <= k <= p.len() && #[trigger] glob(mask.skip(1), p.skip(k), allow_parent);
            assert(p.skip(k) =~= path.skip(k + 1));
            assert(glob(mask.skip(1), path.skip(k + 1), allow_parent));
        }
        if exists|k: int|
            0 <= k <= path.len() && #[trigger] glob(mask.skip(1), path.skip(k), allow_parent) {
            let k = choose|k: int|
                0 <= k <= path.len() && #[trigger] glob(mask.skip(1), path.skip(k), allow_parent);
            if k > 0 {
                assert(p.skip(k - 1) =~= path.skip(k));
                assert(glob(mask.skip(1), p.skip(k - 1), allow_parent));
            }
        }
    }
    if glob(mask.skip(1), path, allow_parent) {
        assert(glob(mask.skip(1), path.skip(0), allow_parent));
    }
}

proof fn lemma_two_stars(mask: Seq<char>, path: Seq<char>, allow_parent: bool)
    requires
        mask.len() >= 2,
        mask[0] == '*',
        mask[1] == '*',
    ensures
        glob(mask, path, allow_parent) == glob(mask.skip(1), path, allow_parent),
    decreases path.len(),
{
    if path.len() > 0 {
        lemma_two_stars(mask, path.skip(1), allow_parent);
    }
}

proof fn lemma_last_star(mask: Seq<char>, path: Seq<char>, allow_parent: bool)
    requires
        mask.len() == 1,
        mask[0] == '*',
    ensures
        glob(mask, path, allow_parent),
    decreases path.len(),
{
    if path.len() > 0 {
        lemma_last_star(mask, path.skip(1), allow_parent);
    } else {
        assert(glob(mask.skip(1), path, allow_parent));
    }
}

/// The matcher, from a position in the mask and one in the path.
fn glob_from(mask: &[char], m0: usize, path: &[char], p0: usize, allow_parent: bool) -> (r: bool)
    requires
        m0 <= mask@.len(),
        p0 <= path@.len(),
    ensures
        r == glob(mask@.skip(m0 as int), path@.skip(p0 as int), allow_parent),
    decreases mask@.len() - m0,
{
    let mut mi = m0;
    let mut pi = p0;
    while mi < mask.len() && mask[mi] != '*'
        invariant
            m0 <= mi <= mask@.len(),
            p0 <= pi <= path@.len(),
            glob(mask@.skip(m0 as int), path@.skip(p0 as int), allow_parent) == glob(
                mask@.skip(mi as int),
                path@.skip(pi as int),
                allow_parent,
            ),
        decreases mask@.len() - mi,
    {
        let c = mask[mi];
        if pi == path.len() {
            return false;
        }
        let d = path[pi];
        if (c == '?' && d == '/') || (c != '?' && d != c) {
            return false;
        }
        proof {
            assert(mask@.skip(mi as int).skip(1) =~= mask@.skip(mi as int + 1));
            assert(path@.skip(pi as int).skip(1) =~= path@.skip(pi as int + 1));
        }
        mi = mi + 1;
        pi = pi + 1;
    }
    if mi == mask.len() {
        return pi == path.len() || (allow_parent && path[pi] == '/');
    }
    let ghost rest = path@.skip(pi as int);
    let n = mask.len();
    while mi + 1 < mask.len() && mask[mi + 1] == '*'
        invariant
            m0 <= mi < mask@.len(),
            n == mask@.len(),
            mask@[mi as int] == '*',
            glob(mask@.skip(m0 as int), path@.skip(p0 as int), allow_parent) == glob(
                mask@.skip(mi as int),
                rest,
                allow_parent,
            ),
        decreases mask@.len() - mi,
    {
        proof {
            lemma_two_stars(mask@.skip(mi as int), rest, allow_parent);
            assert(mask@.skip(mi as int).skip(1) =~= mask@.skip(mi as int + 1));
        }
        mi = mi + 1;
    }
    let ghost star = mask@.skip(mi as int);
    if mi + 1 == mask.len() {
        proof {
            lemma_last_star(star, rest, allow_parent);
        }
        return true;
    }
    let c = mask[mi + 1];
    let ghost after = mask@.skip(mi as int + 1);
    assert(star.skip(1) =~= after);
    let mut q = pi;
    while q < path.len()
        invariant
            pi <= q <= path@.len(),
            m0 <= mi,
            n == mask@.len(),
            mi + 1 < mask@.len(),
            mask@[mi as int] == '*',
            c == mask@[mi as int + 1],
            c != '*',
            rest == path@.skip(pi as int),
            star == mask@.skip(mi as int),
            after == mask@.skip(mi as int + 1),
            star.skip(1) == after,
            glob(mask@.skip(m0 as int), path@.skip(p0 as int), allow_parent) == glob(
                star,
                rest,
                allow_parent,
            ),
            glob(star, rest, allow_parent) == glob(star, path@.skip(q as int), allow_parent),
        decreases path@.len() - q,
    {
        let d = path[q];
        proof {
            let here = path@.skip(q as int);
            assert(after.skip(1) =~= mask@.skip(mi as int + 2));
            assert(here.skip(1) =~= path@.skip(q as int + 1));
            assert(glob(after, here, allow_parent) == (accepts(c, d) && glob(
                after.skip(1),
                here.skip(1),
                allow_parent,
            )));
            assert(glob(star, here, allow_parent) == (glob(after, here, allow_parent) || glob(
                star,
                here.skip(1),
                allow_parent,
            )));
        }
        if (c == '?' && d != '/') || (c != '?' && d == c) {
            if glob_from(mask, mi + 2, path, q + 1, allow_parent) {
                return true;
            }
        }
        q = q + 1;
    }
    proof {
        let here = path@.skip(q as int);
        assert(!glob(after, here, allow_parent));
        assert(!glob(star, here, allow_parent));
    }
    false
}

/// Whether `mask` matches `path`: all of it, or, with `allow_parent`, one of its parents.
pub fn matches_mask(path: &[char], mask: &[char], allow_parent: bool) -> (r: bool)
    ensures
        r == glob(mask@, path@, allow_parent),
{
    assert(mask@.skip(0) =~= mask@);
    assert(path@.skip(0) =~= path@);
    glob_from(mask, 0, path, 0, allow_parent)
}

/// Whether something strictly below `path` may match `mask`.
pub fn mask_begin_wild(path: &[char], mask: &[char]) -> (r: bool)
    ensures
        r == begins(mask@, path@),
{
    assert(mask@.skip(0) =~= mask@);
    assert(path@.skip(0) =~= path@);
    let mut i: usize = 0;
    while i < mask.len()
        invariant
            i <= mask@.len(),
            i <= path@.len(),
            begins(mask@, path@) == begins(mask@.skip(i as int), path@.skip(i as int)),
        decreases mask@.len() - i,
    {
        let c = mask[i];
        proof {
            assert(mask@.skip(i as int).skip(1) =~= mask@.skip(i as int + 1));
            if i < path@.len() {
                assert(path@.skip(i as int).skip(1) =~= path@.skip(i as int + 1));
            }
        }
        if c == '?' {
            if i >= path.len() || path[i] == '/' {
                return false;
            }
        } else if c == '*' {
            return true;
        } else {
            if i >= path.len() {
                return c == '/' && mask.len() - i > 1;
            }
            if path[i] != c {
                return false;
            }
        }
        i = i + 1;
    }
    false
}

/// A mask without wildcards matches itself and, with `allow_parent`, what is below it.
pub proof fn plain_masks_match_by_prefix(mask: Seq<char>, path: Seq<char>, allow_parent: bool)
    requires
        !carries(mask, '*'),
        !carries(mask, '?'),
    ensures
        glob(mask, path, allow_parent) <==> (mask == path || (allow_parent && mask.is_prefix_of(path)
            && mask.len() < path.len() && path[mask.len() as int] == '/')),
    decreases mask.len(),
{
    if mask.len() == 0 {
        assert(mask =~= path.subrange(0, 0));
        if path.len() == 0 {
            assert(mask =~= path);
        }
    } else {
        assert(mask[0] != '*' && mask[0] != '?');
        let m = mask.skip(1);
        if path.len() > 0 && path[0] == mask[0] {
            let p = path.skip(1);
            assert(forall|i: int| 0 <= i < m.len() ==> m[i] == mask[i + 1]);
            assert(forall|i: int| 0 <= i < p.len() ==> p[i] == path[i + 1]);
            plain_masks_match_by_prefix(m, p, allow_parent);
            if mask == path {
                assert(m == p);
            }
            if m == p {
                assert(mask =~= path) by {
                    assert forall|i: int| 0 <= i < mask.len() implies mask[i] == path[i] by {
                        if i > 0 {
                            assert(m[i - 1] == p[i - 1]);
                        }
                    }
                }
            }
            if m.is_prefix_of(p) {
                assert(mask =~= path.subrange(0, mask.len() as int)) by {
                    assert forall|i: int| 0 <= i < mask.len() implies mask[i] == path[i] by {
                        if i > 0 {
                            assert(m[i - 1] == p.subrange(0, m.len() as int)[i - 1]);
                        }
                    }
                }
            }
            if mask.is_prefix_of(path) {
                assert(m =~= p.subrange(0, m.len() as int)) by {
                    assert forall|i: int| 0 <= i < m.len() implies m[i] == p[i] by {
                        assert(mask[i + 1] == path.subrange(0, mask.len() as int)[i + 1]);
                    }
                }
            }
        } else {
            if mask.is_prefix_of(path) {
                assert(mask[0] == path.subrange(0, mask.len() as int)[0]);
            }
        }
    }
}

/// A mask without wildcards leads to what is strictly below it.
pub proof fn plain_masks_begin_by_prefix(mask: Seq<char>, path: Seq<char>)
    requires
        !carries(mask, '*'),
        !carries(mask, '?'),
    ensures
        begins(mask, path) <==> (path.is_prefix_of(mask) && mask.len() > path.len() + 1
            && mask[path.len() as int] == '/'),
    decreases mask.len(),
{
    if mask.len() > 0 {
        assert(mask[0] != '*' && mask[0] != '?');
        let m = mask.skip(1);
        assert(forall|i: int| 0 <= i < m.len() ==> m[i] == mask[i + 1]);
        if path.len() == 0 {
            assert(path =~= mask.subrange(0, 0));
        } else if path[0] == mask[0] {
            let p = path.skip(1);
            assert(forall|i: int| 0 <= i < p.len() ==> p[i] == path[i + 1]);
            plain_masks_begin_by_prefix(m, p);
            if p.is_prefix_of(m) {
                assert(path =~= mask.subrange(0, path.len() as int)) by {
                    assert forall|i: int| 0 <= i < path.len() implies path[i] == mask[i] by {
                        if i > 0 {
                            assert(p[i - 1] == m.subrange(0, p.len() as int)[i - 1]);
                        }
                    }
                }
            }
            if path.is_prefix_of(mask) {
                assert(p =~= m.subrange(0, p.len() as int)) by {
                    assert forall|i: int| 0 <= i < p.len() implies p[i] == m[i] by {
                        assert(path[i + 1] == mask.subrange(0, path.len() as int)[i + 1]);
                    }
                }
            }
        } else if path.is_prefix_of(mask) {
            assert(path[0] == mask.subrange(0, path.len() as int)[0]);
        }
    }
}

/// Whether one of the masks matches.
pub open spec fn any_glob(masks: Set<Seq<char>>, path: Seq<char>, allow_parent: bool) -> bool {
    exists|m: Seq<char>| #[trigger] masks.contains(m) && glob(m, path, allow_parent)
}

/// Whether one of the masks may match strictly below `path`.
pub open spec fn any_begins(masks: Set<Seq<char>>, path: Seq<char>) -> bool {
    exists|m: Seq<char>| #[trigger] masks.contains(m) && begins(m, path)
}

/// `m` is one of the listed masks.
spec fn listed(list: Seq<Vec<char>>, m: Seq<char>) -> bool {
    exists|i: int| 0 <= i < list.len() && (#[trigger] list[i])@ == m
}

/// A set of masks; those without wildcards stand apart, since they match by comparison alone.
struct Masks {
    wild: Vec<Vec<char>>,
    plain: Vec<Vec<char>>,
}

impl View for Masks {
    type V = Set<Seq<char>>;

    closed spec fn view(&self) -> Set<Seq<char>> {
        Set::new(|m: Seq<char>| listed(self.wild@, m) || listed(self.plain@, m))
    }
}

impl Masks {
    spec fn wf(&self) -> bool {
        forall|i: int|
            0 <= i < self.plain@.len() ==> {
                &&& !carries((#[trigger] self.plain@[i])@, '*')
                &&& !carries(self.plain@[i]@, '?')
            }
    }

    fn new() -> (r: Masks)
        ensures
            r.wf(),
            r@ == Set::<Seq<char>>::empty(),
    {
        let r = Masks { wild: Vec::new(), plain: Vec::new() };
        assert(r@ =~= Set::<Seq<char>>::empty());
        r
    }

    fn insert(&mut self, mask: Vec<char>)
        requires
            old(self).wf(),
        ensures
            final(self).wf(),
            final(self)@ == with_mask(old(self)@, mask@),
    {
        if mask.len() == 0 {
            return;
        }
        let q = find(mask.as_slice(), '?');
        let w = find(mask.as_slice(), '*');
        proof {
            lemma_first_index(mask@, '?');
            lemma_first_index(mask@, '*');
        }
        let ghost before = *self;
        let ghost text = mask@;
        if q.is_some() || w.is_some() {
            self.wild.push(mask);
            proof {
                lemma_listed_push(before.wild@, mask);
                assert(self@ =~= before@.insert(text));
            }
        } else {
            self.plain.push(mask);
            proof {
                lemma_listed_push(before.plain@, mask);
                assert(self@ =~= before@.insert(text));
            }
        }
    }

    fn matches(&self, path: &[char], allow_parent: bool) -> (r: bool)
        requires
            self.wf(),
        ensures
            r == any_glob(self@, path@, allow_parent),
    {
        let mut i: usize = 0;
        while i < self.wild.len()
            invariant
                i <= self.wild@.len(),
                forall|j: int|
                    0 <= j < i ==> !glob((#[trigger] self.wild@[j])@, path@, allow_parent),
            decreases self.wild@.len() - i,
        {
            if matches_mask(path, self.wild[i].as_slice(), allow_parent) {
                assert(self@.contains(self.wild@[i as int]@));
                return true;
            }
            i = i + 1;
        }
        let mut k: usize = 0;
        while k < self.plain.len()
            invariant
                self.wf(),
                k <= self.plain@.len(),
                forall|j: int|
                    0 <= j < k ==> !glob((#[trigger] self.plain@[j])@, path@, allow_parent),
            decreases self.plain@.len() - k,
        {
            let m = self.plain[k].as_slice();
            proof {
                plain_masks_match_by_prefix(m@, path@, allow_parent);
            }
            let equal = same_chars(m, path);
            let under = allow_parent && m.len() < path.len() && path[m.len()] == '/' && starts_with(
                path,
                m,
            );
            if equal || under {
                assert(self@.contains(self.plain@[k as int]@));
                return true;
            }
            k = k + 1;
        }
        proof {
            assert forall|m: Seq<char>| #[trigger] self@.contains(m) implies !glob(
                m,
                path@,
                allow_parent,
            ) by {
                if listed(self.wild@, m) {
                    let j = choose|j: int|
                        0 <= j < self.wild@.len() && (#[trigger] self.wild@[j])@ == m;
                    assert(!glob(self.wild@[j]@, path@, allow_parent));
                } else {
                    let j = choose|j: int|
                        0 <= j < self.plain@.len() && (#[trigger] self.plain@[j])@ == m;
                    assert(!glob(self.plain@[j]@, path@, allow_parent));
                }
            }
        }
        false
    }

    /// Whether a mask may match strictly below `path`: whether it is worth descending.
    fn matches_begin(&self, path: &[char]) -> (r: bool)
        requires
            self.wf(),
        ensures
            r == any_begins(self@, path@),
    {
        let mut i: usize = 0;
        while i < self.wild.len()
            invariant
                i <= self.wild@.len(),
                forall|j: int| 0 <= j < i ==> !begins((#[trigger] self.wild@[j])@, path@),
            decreases self.wild@.len() - i,
        {
            if mask_begin_wild(path, self.wild[i].as_slice()) {
                assert(self@.contains(self.wild@[i as int]@));
                return true;
            }
            i = i + 1;
        }
        let mut k: usize = 0;
        while k < self.plain.len()
            invariant
                self.wf(),
                k <= self.plain@.len(),
                forall|j: int| 0 <= j < k ==> !begins((#[trigger] self.plain@[j])@, path@),
            decreases self.plain@.len() - k,
        {
            let m = self.plain[k].as_slice();
            proof {
                plain_masks_begin_by_prefix(m@, path@);
            }
            if m.len() > path.len() && m.len() - path.len() > 1 && m[path.len()] == '/' && starts_with(
                m,
                path,
            ) {
                assert(self@.contains(self.plain@[k as int]@));
                return true;
            }
            k = k + 1;
        }
        proof {
            assert forall|m: Seq<char>| #[trigger] self@.contains(m) implies !begins(m, path@) by {
                if listed(self.wild@, m) {
                    let j = choose|j: int|
                        0 <= j < self.wild@.len() && (#[trigger] self.wild@[j])@ == m;
                    assert(!begins(self.wild@[j]@, path@));
                } else {
                    let j = choose|j: int|
                        0 <= j < self.plain@.len() && (#[trigger] self.plain@[j])@ == m;
                    assert(!begins(self.plain@[j]@, path@));
                }
            }
        }
        false
    }
}

proof fn lemma_listed_push(list: Seq<Vec<char>>, item: Vec<char>)
    ensures
        forall|m: Seq<char>| #[trigger]
            listed(list.push(item), m) <==> (listed(list, m) || m == item@),
{
    let next = list.push(item);
    assert forall|m: Seq<char>| #[trigger] listed(next, m) <==> (listed(list, m) || m == item@) by {
        if listed(list, m) {
            let i = choose|i: int| 0 <= i < list.len() && (#[trigger] list[i])@ == m;
            assert(next[i]@ == m);
        }
        if m == item@ {
            assert(next[list.len() as int]@ == m);
        }
        if listed(next, m) {
            let i = choose|i: int| 0 <= i < next.len() && (#[trigger] next[i])@ == m;
            if i < list.len() {
                assert(list[i]@ == m);
            }
        }
    }
}

/// The masks with one more; an empty mask adds nothing.
pub open spec fn with_mask(masks: Set<Seq<char>>, mask: Seq<char>) -> Set<Seq<char>> {
    if mask.len() == 0 {
        masks
    } else {
        masks.insert(mask)
    }
}

/// What a list of phrases matches: masks for files, and masks for directories with all they hold.
pub struct MaskRules {
    pub files: Set<Seq<char>>,
    pub folders: Set<Seq<char>>,
}

pub open spec fn no_rules() -> MaskRules {
    MaskRules { files: Set::empty(), folders: Set::empty() }
}

/// `s` without its trailing slashes.
pub open spec fn trim_slashes(s: Seq<char>) -> Seq<char>
    decreases s.len(),
{
    if s.len() > 0 && s.last() == '/' {
        trim_slashes(s.drop_last())
    } else {
        s
    }
}

/// The rules with those of one anchored phrase added.
pub open spec fn with_tail(rules: MaskRules, t: Seq<char>) -> MaskRules {
    if t.len() > 0 && t.last() == ':' {
        MaskRules { files: with_mask(rules.files, t.drop_last()), folders: rules.folders }
    } else if t.len() > 0 && t.last() == '/' {
        MaskRules { files: rules.files, folders: with_mask(rules.folders, trim_slashes(t)) }
    } else if t.len() > 1 && t.last() == '*' && t[t.len() - 2] == '/' {
        MaskRules { files: rules.files, folders: with_mask(rules.folders, t.take(t.len() - 2)) }
    } else {
        MaskRules { files: with_mask(rules.files, t), folders: with_mask(rules.folders, t) }
    }
}

/// The rules with those of one normalized phrase added.
pub open spec fn with_norm(rules: MaskRules, norm: Seq<char>) -> MaskRules {
    if norm.len() == 0 {
        rules
    } else if norm[0] == '/' {
        with_tail(rules, norm.skip(1))
    } else if norm.len() > 1 && norm[0] == '*' && norm[1] == '/' {
        with_tail(with_tail(rules, norm), norm.skip(2))
    } else {
        with_tail(rules, norm)
    }
}

/// A phrase with its ends trimmed, in upper case and with forward slashes.
pub open spec fn norm_phrase(phrase: Seq<char>) -> Seq<char> {
    replaced(uppercase(trim(phrase)), '\\', '/')
}

/// The rules of a list of phrases.
pub open spec fn rules_of(phrases: Seq<Seq<char>>) -> MaskRules
    decreases phrases.len(),
{
    if phrases.len() == 0 {
        no_rules()
    } else {
        with_norm(rules_of(phrases.drop_last()), norm_phrase(phrases.last()))
    }
}

struct MaskSet {
    file_masks: Masks,
    folder_masks: Masks,
}

impl View for MaskSet {
    type V = MaskRules;

    closed spec fn view(&self) -> MaskRules {
        MaskRules { files: self.file_masks@, folders: self.folder_masks@ }
    }
}

impl MaskSet {
    spec fn wf(&self) -> bool {
        self.file_masks.wf() && self.folder_masks.wf()
    }

    fn new() -> (r: MaskSet)
        ensures
            r.wf(),
            r@ == no_rules(),
    {
        MaskSet { file_masks: Masks::new(), folder_masks: Masks::new() }
    }

    /// Whether a file is hit, by its own path or by the directory it stands in.
    fn hits(&self, path: &[char]) -> (r: bool)
        requires
            self.wf(),
        ensures
            r == hits(self@, path@),
    {
        if self.file_masks.matches(path, false) {
            return true;
        }
        match rfind(path, '/') {
            Some(i) => {
                let dir = slice(path, 0, i);
                assert(dir@ =~= path@.take(i as int));
                self.folder_masks.matches(dir.as_slice(), true)
            },
            None => false,
        }
    }
}

fn process_tail(t: &[char], set: &mut MaskSet)
    requires
        old(set).wf(),
    ensures
        final(set).wf(),
        final(set)@ == with_tail(old(set)@, t@),
{
    let n = t.len();
    if n > 0 && t[n - 1] == ':' {
        let head = slice(t, 0, n - 1);
        assert(head@ =~= t@.drop_last());
        set.file_masks.insert(head);
    } else if n > 0 && t[n - 1] == '/' {
        let mut k: usize = n;
        assert(t@.take(n as int) =~= t@);
        while k > 0 && t[k - 1] == '/'
            invariant
                k <= t@.len(),
                trim_slashes(t@) == trim_slashes(t@.take(k as int)),
            decreases k,
        {
            assert(t@.take(k as int).drop_last() =~= t@.take(k as int - 1));
            k = k - 1;
        }
        let head = slice(t, 0, k);
        assert(head@ =~= t@.take(k as int));
        set.folder_masks.insert(head);
    } else if n > 1 && t[n - 1] == '*' && t[n - 2] == '/' {
        let head = slice(t, 0, n - 2);
        assert(head@ =~= t@.take(n as int - 2));
        set.folder_masks.insert(head);
    } else {
        let a = slice(t, 0, n);
        let b = slice(t, 0, n);
        assert(a@ =~= t@);
        set.file_masks.insert(a);
        set.folder_masks.insert(b);
    }
}

fn add_norm(norm: &[char], set: &mut MaskSet)
    requires
        old(set).wf(),
    ensures
        final(set).wf(),
        final(set)@ == with_norm(old(set)@, norm@),
{
    let n = norm.len();
    if n == 0 {
        return;
    }
    if norm[0] == '/' {
        let tail = slice(norm, 1, n);
        assert(tail@ =~= norm@.skip(1));
        process_tail(tail.as_slice(), set);
    } else {
        process_tail(norm, set);
        if n > 1 && norm[0] == '*' && norm[1] == '/' {
            let tail = slice(norm, 2, n);
            assert(tail@ =~= norm@.skip(2));
            process_tail(tail.as_slice(), set);
        }
    }
}

fn parse_phrase(phrase: &[char], set: &mut MaskSet)
    requires
        old(set).wf(),
    ensures
        final(set).wf(),
        final(set)@ == with_norm(old(set)@, norm_phrase(phrase@)),
        is_ascii_chars(trim(phrase@)) ==> norm_phrase(phrase@) == replaced(
            ascii_uppered(trim(phrase@)),
            '\\',
            '/',
        ),
{
    let t = trimmed(phrase);
    let text = text_of(t.as_slice());
    let upper = to_uppercase(text.as_str());
    let u = chars_of(upper.as_str());
    let norm = replace_char(u.as_slice(), '\\', '/');
    add_norm(norm.as_slice(), set);
}

/// What is never synced: rubbish, what can be rebuilt, and the tool's own files.
pub open spec fn default_exclude_phrases() -> Seq<Seq<char>> {
    seq![
        "*/.git/"@,
        "*/node_modules/"@,
        "*/target/"@,
        "*/build/"@,
        "*/dist/"@,
        "*/__pycache__/"@,
        "*/.venv/"@,
        "*/venv/"@,
        "*/worktrees/"@,
        "*/.Spotlight-V100/"@,
        "*/.fseventsd/"@,
        "*/.Trashes/"@,
        "*/.TemporaryItems/"@,
        "*/.DocumentRevisions-V100/"@,
        "*/$RECYCLE.BIN/"@,
        "*/System Volume Information/"@,
        "*/.syncdash/"@,
        "*/.version_syncDash/"@,
        "*/.DS_Store"@,
        "*/._*"@,
        "*/Thumbs.db"@,
        "*/desktop.ini"@,
        "*/sync.ffs_db"@,
        "*/sync.ffs_lock"@,
        "*/.syncdash.lock"@,
        "*/*.recovery"@,
        "*/*.status"@,
        "*/.syncdash.tmp.*"@,
        "*/.syncdash-root"@,
    ]
}

/// What a build can make again.
pub open spec fn dev_phrases() -> Seq<Seq<char>> {
    seq![
        "*/.git/"@,
        "*/node_modules/"@,
        "*/target/"@,
        "*/build/"@,
        "*/dist/"@,
        "*/__pycache__/"@,
        "*/.venv/"@,
        "*/venv/"@,
        "*/worktrees/"@,
    ]
}

/// What macOS leaves behind.
pub open spec fn mac_phrases() -> Seq<Seq<char>> {
    seq![
        "*/.Spotlight-V100/"@,
        "*/.fseventsd/"@,
        "*/.Trashes/"@,
        "*/.TemporaryItems/"@,
        "*/.DocumentRevisions-V100/"@,
        "*/.DS_Store"@,
        "*/._*"@,
    ]
}

/// What Windows leaves behind.
pub open spec fn windows_phrases() -> Seq<Seq<char>> {
    seq![
        "*/$RECYCLE.BIN/"@,
        "*/System Volume Information/"@,
        "*/Thumbs.db"@,
        "*/desktop.ini"@,
    ]
}

/// What sync tools keep for themselves.
pub open spec fn own_phrases() -> Seq<Seq<char>> {
    seq![
        "*/.syncdash/"@,
        "*/.version_syncDash/"@,
        "*/sync.ffs_db"@,
        "*/sync.ffs_lock"@,
        "*/.syncdash.lock"@,
        "*/*.recovery"@,
        "*/*.status"@,
        "*/.syncdash.tmp.*"@,
        "*/.syncdash-root"@,
    ]
}

/// The default excludes that a job asks for: `windows`, `mac` or `off` narrow those of the systems, and
/// what can be made again is excluded on request. The tool's own files always are.
pub open spec fn chosen_phrases(os: Seq<char>, dev: bool) -> Seq<Seq<char>> {
    let mac = if os == "off"@ || os == "windows"@ {
        Seq::empty()
    } else {
        mac_phrases()
    };
    let windows = if os == "off"@ || os == "mac"@ {
        Seq::empty()
    } else {
        windows_phrases()
    };
    let made = if dev {
        dev_phrases()
    } else {
        Seq::empty()
    };
    own_phrases() + mac + windows + made
}

/// The phrases that keep out the tool's own files are among these.
pub open spec fn keeps_own_out(base: Seq<Seq<char>>) -> bool {
    &&& base.contains("*/.syncdash/"@)
    &&& base.contains("*/.version_syncDash/"@)
    &&& base.contains("*/.syncdash.lock"@)
    &&& base.contains("*/.syncdash-root"@)
}

/// The mark of a root, a lock, or anything in a directory that is the tool's own; `path` is in upper
/// case.
pub open spec fn own_file(path: Seq<char>) -> bool {
    ||| base_of(path) == ".SYNCDASH-ROOT"@
    ||| base_of(path) == ".SYNCDASH.LOCK"@
    ||| parent_of(path) matches Some(dir) && own_dir(dir)
}

/// A directory that is the tool's own, or stands in one; `path` is in upper case.
pub open spec fn own_dir(path: Seq<char>) -> bool {
    ||| exists|i: int| segment_at(path, ".SYNCDASH"@, i)
    ||| exists|i: int| segment_at(path, ".VERSION_SYNCDASH"@, i)
}

/// The tool's own files and directories pass only where an exception names them.
pub open spec fn own_files_stay_out(f: FilterRules) -> bool {
    &&& forall|path: Seq<char>| #[trigger]
        own_file(path) && !hits(f.except, path) ==> !file_passes(f, path)
    &&& forall|path: Seq<char>| #[trigger]
        own_dir(path) && !any_glob(f.except.folders, path, true) ==> !dir_passes(f, path)
}

/// The phrases that keep the tool's own metadata out are among these.
pub open spec fn lists_own_metadata(phrases: Seq<Seq<char>>) -> bool {
    forall|k: int|
        0 <= k < self_exclude_phrases().len() ==> phrases.contains(
            #[trigger] self_exclude_phrases()[k],
        )
}

/// What belongs to the tool is matched, as a directory and as a file; a file that only bears the
/// name of one of the tool's directories need not be.
pub open spec fn own_paths_are_matched(rules: MaskRules) -> bool {
    forall|path: Seq<char>| #[trigger]
        internal_path(path) ==> any_glob(rules.folders, ascii_uppered(path), true) && (hits(
            rules,
            ascii_uppered(path),
        ) || base_of(path) == APP_DIR@ || base_of(path) == VERSION_STORE_DIR@)
}

/// A phrase in ASCII is read in upper case as ASCII has it.
pub open spec fn ascii_norm(phrase: Seq<char>) -> bool {
    is_ascii_chars(trim(phrase)) ==> norm_phrase(phrase) == replaced(
        ascii_uppered(trim(phrase)),
        '\\',
        '/',
    )
}

/// The default excludes.
pub fn default_excludes() -> (r: Vec<&'static str>)
    ensures
        literals(r@) == default_exclude_phrases(),
{
    let r: Vec<&'static str> = vec![
        "*/.git/",
        "*/node_modules/",
        "*/target/",
        "*/build/",
        "*/dist/",
        "*/__pycache__/",
        "*/.venv/",
        "*/venv/",
        "*/worktrees/",
        "*/.Spotlight-V100/",
        "*/.fseventsd/",
        "*/.Trashes/",
        "*/.TemporaryItems/",
        "*/.DocumentRevisions-V100/",
        "*/$RECYCLE.BIN/",
        "*/System Volume Information/",
        "*/.syncdash/",
        "*/.version_syncDash/",
        "*/.DS_Store",
        "*/._*",
        "*/Thumbs.db",
        "*/desktop.ini",
        "*/sync.ffs_db",
        "*/sync.ffs_lock",
        "*/.syncdash.lock",
        "*/*.recovery",
        "*/*.status",
        "*/.syncdash.tmp.*",
        "*/.syncdash-root",
    ];
    assert(literals(r@) =~= default_exclude_phrases());
    r
}

fn push_phrases(list: &mut Vec<&'static str>, more: Vec<&'static str>)
    ensures
        literals(final(list)@) == literals(old(list)@) + literals(more@),
{
    let mut i: usize = 0;
    assert(literals(old(list)@) + literals(more@.take(0)) =~= literals(old(list)@));
    while i < more.len()
        invariant
            i <= more@.len(),
            literals(list@) == literals(old(list)@) + literals(more@.take(i as int)),
        decreases more@.len() - i,
    {
        let ghost was = list@;
        list.push(more[i]);
        proof {
            assert(literals(list@) =~= literals(was).push(more@[i as int]@));
            assert(literals(more@.take(i as int + 1)) =~= literals(more@.take(i as int)).push(
                more@[i as int]@,
            ));
        }
        i = i + 1;
    }
    assert(more@.take(more@.len() as int) =~= more@);
}

pub open spec fn literals(v: Seq<&'static str>) -> Seq<Seq<char>> {
    Seq::new(v.len(), |i: int| v[i]@)
}

/// The default excludes that a job asks for.
pub fn chosen_excludes(os: &str, dev: bool) -> (r: Vec<&'static str>)
    ensures
        literals(r@) == chosen_phrases(os@, dev),
{
    let mut r: Vec<&'static str> = vec![
        "*/.syncdash/",
        "*/.version_syncDash/",
        "*/sync.ffs_db",
        "*/sync.ffs_lock",
        "*/.syncdash.lock",
        "*/*.recovery",
        "*/*.status",
        "*/.syncdash.tmp.*",
        "*/.syncdash-root",
    ];
    assert(literals(r@) =~= own_phrases());
    let off = same(os, "off");
    if !off && !same(os, "windows") {
        let mac: Vec<&'static str> = vec![
            "*/.Spotlight-V100/",
            "*/.fseventsd/",
            "*/.Trashes/",
            "*/.TemporaryItems/",
            "*/.DocumentRevisions-V100/",
            "*/.DS_Store",
            "*/._*",
        ];
        assert(literals(mac@) =~= mac_phrases());
        push_phrases(&mut r, mac);
    }
    if !off && !same(os, "mac") {
        let windows: Vec<&'static str> = vec![
            "*/$RECYCLE.BIN/",
            "*/System Volume Information/",
            "*/Thumbs.db",
            "*/desktop.ini",
        ];
        assert(literals(windows@) =~= windows_phrases());
        push_phrases(&mut r, windows);
    }
    if dev {
        let made: Vec<&'static str> = vec![
            "*/.git/",
            "*/node_modules/",
            "*/target/",
            "*/build/",
            "*/dist/",
            "*/__pycache__/",
            "*/.venv/",
            "*/venv/",
            "*/worktrees/",
        ];
        assert(literals(made@) =~= dev_phrases());
        push_phrases(&mut r, made);
    }
    assert(literals(r@) =~= chosen_phrases(os@, dev));
    r
}

/// The text behind the `!` of an exception, `None` for an ordinary phrase.
pub open spec fn exception_of(phrase: Seq<char>) -> Option<Seq<char>> {
    let t = trim(phrase);
    if t.len() > 0 && t[0] == '!' {
        Some(trim(t.skip(1)))
    } else {
        None
    }
}

/// The phrases of a list that are no exceptions.
pub open spec fn plain_phrases(phrases: Seq<Seq<char>>) -> Seq<Seq<char>>
    decreases phrases.len(),
{
    if phrases.len() == 0 {
        Seq::empty()
    } else if exception_of(phrases.last()) is Some {
        plain_phrases(phrases.drop_last())
    } else {
        plain_phrases(phrases.drop_last()).push(phrases.last())
    }
}

/// The texts of the exceptions of a list; an exception of nothing is none.
pub open spec fn exceptions(phrases: Seq<Seq<char>>) -> Seq<Seq<char>>
    decreases phrases.len(),
{
    if phrases.len() == 0 {
        Seq::empty()
    } else {
        match exception_of(phrases.last()) {
            Some(rest) => if rest.len() == 0 {
                exceptions(phrases.drop_last())
            } else {
                exceptions(phrases.drop_last()).push(rest)
            },
            None => exceptions(phrases.drop_last()),
        }
    }
}

/// Some text does not begin at the root.
pub open spec fn some_unanchored(list: Seq<Seq<char>>) -> bool {
    exists|i: int| 0 <= i < list.len() && (#[trigger] list[i])[0] != '/'
}

/// All that a filter decides by.
pub struct FilterRules {
    pub wanted: MaskRules,
    pub exclude: MaskRules,
    pub except: MaskRules,
    pub deletable: MaskRules,
    /// An exception may hide below any excluded directory, so none may be skipped.
    pub blocks_pruning: bool,
}

/// The rules of a filter made of these lists, with all the default excludes.
pub open spec fn filter_rules(
    includes: Seq<Seq<char>>,
    extra_excludes: Seq<Seq<char>>,
    deletables: Seq<Seq<char>>,
) -> FilterRules {
    rules_on(default_exclude_phrases(), includes, extra_excludes, deletables)
}

/// The rules of a filter made of these lists, with `base` for the default excludes.
pub open spec fn rules_on(
    base: Seq<Seq<char>>,
    includes: Seq<Seq<char>>,
    extra_excludes: Seq<Seq<char>>,
    deletables: Seq<Seq<char>>,
) -> FilterRules {
    FilterRules {
        wanted: rules_of(
            if includes.len() == 0 {
                seq!["*"@]
            } else {
                includes
            },
        ),
        exclude: rules_of(base + plain_phrases(extra_excludes)),
        except: rules_of(exceptions(extra_excludes)),
        deletable: rules_of(deletables),
        blocks_pruning: some_unanchored(exceptions(extra_excludes)),
    }
}

/// Whether a file is hit, by its own path or by the directory it stands in.
pub open spec fn hits(rules: MaskRules, path: Seq<char>) -> bool {
    ||| any_glob(rules.files, path, false)
    ||| parent_of(path) matches Some(dir) && any_glob(rules.folders, dir, true)
}

/// Whether a file passes; `path` is in upper case.
pub open spec fn file_passes(f: FilterRules, path: Seq<char>) -> bool {
    &&& hits(f.except, path) || !hits(f.exclude, path)
    &&& hits(f.wanted, path)
}

/// Whether a directory is excluded, and no exception names it.
pub open spec fn dir_excluded(f: FilterRules, path: Seq<char>) -> bool {
    !any_glob(f.except.folders, path, true) && any_glob(f.exclude.folders, path, true)
}

/// Whether a directory itself passes; `path` is in upper case.
pub open spec fn dir_passes(f: FilterRules, path: Seq<char>) -> bool {
    !dir_excluded(f, path) && any_glob(f.wanted.folders, path, true)
}

/// Whether it is worth looking into a directory; `path` is in upper case.
pub open spec fn dir_descends(f: FilterRules, path: Seq<char>) -> bool {
    if dir_excluded(f, path) {
        f.blocks_pruning && (any_begins(f.except.files, path) || any_begins(f.except.folders, path))
    } else {
        ||| any_glob(f.wanted.folders, path, true)
        ||| any_begins(f.wanted.files, path)
        ||| any_begins(f.wanted.folders, path)
    }
}

pub struct PathFilter {
    wanted: MaskSet,
    exclude: MaskSet,
    except: MaskSet,
    deletable: MaskSet,
    except_blocks_pruning: bool,
}

impl View for PathFilter {
    type V = FilterRules;

    closed spec fn view(&self) -> FilterRules {
        FilterRules {
            wanted: self.wanted@,
            exclude: self.exclude@,
            except: self.except@,
            deletable: self.deletable@,
            blocks_pruning: self.except_blocks_pruning,
        }
    }
}

fn parse_all(phrases: &[String]) -> (r: MaskSet)
    ensures
        r.wf(),
        r@ == rules_of(texts(phrases@)),
{
    let mut set = MaskSet::new();
    let mut i: usize = 0;
    assert(texts(phrases@).take(0) =~= Seq::<Seq<char>>::empty());
    while i < phrases.len()
        invariant
            i <= phrases@.len(),
            set.wf(),
            set@ == rules_of(texts(phrases@).take(i as int)),
        decreases phrases@.len() - i,
    {
        let p = chars_of(phrases[i].as_str());
        parse_phrase(p.as_slice(), &mut set);
        proof {
            let t = texts(phrases@);
            assert(t.take(i as int + 1).drop_last() =~= t.take(i as int));
            assert(t.take(i as int + 1).last() == phrases@[i as int]@);
        }
        i = i + 1;
    }
    assert(texts(phrases@).take(phrases@.len() as int) =~= texts(phrases@));
    set
}

impl PathFilter {
    #[verifier::type_invariant]
    spec fn masks_are_well_formed(self) -> bool {
        self.wanted.wf() && self.exclude.wf() && self.except.wf() && self.deletable.wf()
    }

    /// No includes means everything; the excludes come on top of the default ones.
    pub fn build(includes: &[String], extra_excludes: &[String]) -> (r: PathFilter)
        ensures
            r@ == filter_rules(texts(includes@), texts(extra_excludes@), Seq::empty()),
            own_files_stay_out(r@),
            lists_own_metadata(texts(extra_excludes@)) ==> own_paths_are_matched(r@.exclude),
    {
        let none: Vec<String> = Vec::new();
        assert(texts(none@) =~= Seq::<Seq<char>>::empty());
        PathFilter::build_full(includes, extra_excludes, none.as_slice())
    }

    /// As `build`, with a list of what may be deleted along with its directory.
    pub fn build_full(
        includes: &[String],
        extra_excludes: &[String],
        deletables: &[String],
    ) -> (r: PathFilter)
        ensures
            r@ == filter_rules(texts(includes@), texts(extra_excludes@), texts(deletables@)),
            includes@.len() == 0 ==> r@.wanted == (MaskRules {
                files: set![seq!['*']],
                folders: set![seq!['*']],
            }),
            own_files_stay_out(r@),
            lists_own_metadata(texts(extra_excludes@)) ==> own_paths_are_matched(r@.exclude),
    {
        let defaults = default_excludes();
        proof {
            lemma_defaults_keep_own_out();
        }
        PathFilter::build_on(defaults, includes, extra_excludes, deletables)
    }

    /// As `build_full`, with those default excludes alone that a job asks for.
    pub fn build_full_opt(
        includes: &[String],
        extra_excludes: &[String],
        deletables: &[String],
        os_excludes: &str,
        dev_excludes: bool,
    ) -> (r: PathFilter)
        ensures
            r@ == rules_on(
                chosen_phrases(os_excludes@, dev_excludes),
                texts(includes@),
                texts(extra_excludes@),
                texts(deletables@),
            ),
            includes@.len() == 0 ==> r@.wanted == (MaskRules {
                files: set![seq!['*']],
                folders: set![seq!['*']],
            }),
            own_files_stay_out(r@),
            lists_own_metadata(texts(extra_excludes@)) ==> own_paths_are_matched(r@.exclude),
    {
        let defaults = chosen_excludes(os_excludes, dev_excludes);
        proof {
            lemma_chosen_keep_own_out(os_excludes@, dev_excludes);
        }
        PathFilter::build_on(defaults, includes, extra_excludes, deletables)
    }

    fn build_on(
        defaults: Vec<&'static str>,
        includes: &[String],
        extra_excludes: &[String],
        deletables: &[String],
    ) -> (r: PathFilter)
        requires
            keeps_own_out(literals(defaults@)),
        ensures
            r@ == rules_on(
                literals(defaults@),
                texts(includes@),
                texts(extra_excludes@),
                texts(deletables@),
            ),
            includes@.len() == 0 ==> r@.wanted == (MaskRules {
                files: set![seq!['*']],
                folders: set![seq!['*']],
            }),
            own_files_stay_out(r@),
            lists_own_metadata(texts(extra_excludes@)) ==> own_paths_are_matched(r@.exclude),
    {
        let wanted = if includes.len() == 0 {
            let mut set = MaskSet::new();
            let star = chars_of("*");
            proof {
                reveal_strlit("*");
                assert(star@ =~= seq!['*']);
                let s = star@;
                assert(crate::strings::trim_start(s) == s);
                assert(trim(s) == s);
                assert(is_ascii_chars(s));
                assert(replaced(ascii_uppered(s), '\\', '/') =~= s);
                assert(seq!["*"@].drop_last() =~= Seq::<Seq<char>>::empty());
                assert(rules_of(Seq::<Seq<char>>::empty()) == no_rules());
            }
            parse_phrase(star.as_slice(), &mut set);
            proof {
                assert(Set::<Seq<char>>::empty().insert(seq!['*']) =~= set![seq!['*']]);
            }
            set
        } else {
            parse_all(includes)
        };
        let mut exclude = MaskSet::new();
        let mut except = MaskSet::new();
        let mut blocks: bool = false;
        let ghost base = literals(defaults@);
        let mut i: usize = 0;
        assert(base.take(0) =~= Seq::<Seq<char>>::empty());
        while i < defaults.len()
            invariant
                i <= defaults@.len(),
                base == literals(defaults@),
                exclude.wf(),
                exclude@ == rules_of(base.take(i as int)),
                forall|j: int| 0 <= j < i ==> ascii_norm(#[trigger] base[j]),
            decreases defaults@.len() - i,
        {
            let p = chars_of(defaults[i]);
            parse_phrase(p.as_slice(), &mut exclude);
            proof {
                assert(base.take(i as int + 1).drop_last() =~= base.take(i as int));
                assert(base[i as int] == defaults@[i as int]@);
            }
            i = i + 1;
        }
        let ghost extra = texts(extra_excludes@);
        let mut k: usize = 0;
        proof {
            assert(base.take(base.len() as int) =~= base);
            assert(extra.take(0) =~= Seq::<Seq<char>>::empty());
            assert(base + plain_phrases(extra.take(0)) =~= base);
        }
        while k < extra_excludes.len()
            invariant
                k <= extra_excludes@.len(),
                extra == texts(extra_excludes@),
                exclude.wf(),
                except.wf(),
                exclude@ == rules_of(base + plain_phrases(extra.take(k as int))),
                except@ == rules_of(exceptions(extra.take(k as int))),
                blocks == some_unanchored(exceptions(extra.take(k as int))),
                forall|j: int|
                    0 <= j < k && exception_of(extra[j]) is None ==> ascii_norm(#[trigger] extra[j]),
            decreases extra_excludes@.len() - k,
        {
            let p = chars_of(extra_excludes[k].as_str());
            let t = trimmed(p.as_slice());
            let ghost now = extra.take(k as int);
            let ghost next = extra.take(k as int + 1);
            proof {
                assert(next.drop_last() =~= now);
                assert(next.last() == p@);
            }
            if t.len() > 0 && t[0] == '!' {
                let tail = slice(t.as_slice(), 1, t.len());
                assert(tail@ =~= t@.skip(1));
                let rest = trimmed(tail.as_slice());
                if rest.len() > 0 {
                    let ghost list = exceptions(now);
                    let ghost longer = list.push(rest@);
                    proof {
                        assert(exceptions(next) == longer);
                        assert(longer.drop_last() =~= list);
                        if some_unanchored(list) {
                            let j = choose|j: int|
                                0 <= j < list.len() && (#[trigger] list[j])[0] != '/';
                            assert(longer[j][0] != '/');
                        }
                        if rest@[0] != '/' {
                            assert(longer[list.len() as int][0] != '/');
                        } else if some_unanchored(longer) {
                            let j = choose|j: int|
                                0 <= j < longer.len() && (#[trigger] longer[j])[0] != '/';
                            assert(list[j][0] != '/');
                        }
                    }
                    if rest[0] != '/' {
                        blocks = true;
                    }
                    parse_phrase(rest.as_slice(), &mut except);
                    proof {
                        assert(longer.last() == rest@);
                    }
                }
            } else {
                parse_phrase(p.as_slice(), &mut exclude);
                proof {
                    let all = base + plain_phrases(next);
                    assert(all.drop_last() =~= base + plain_phrases(now));
                    assert(all.last() == p@);
                }
            }
            k = k + 1;
        }
        assert(extra.take(extra.len() as int) =~= extra);
        let deletable = parse_all(deletables);
        let filter = PathFilter {
            wanted,
            exclude,
            except,
            deletable,
            except_blocks_pruning: blocks,
        };
        proof {
            let all = base + plain_phrases(extra);
            assert forall|j: int| 0 <= j < base.len() implies ascii_norm(#[trigger] all[j]) by {
                assert(all[j] == base[j]);
            }
            lemma_own_files_stay_out(filter@, base, plain_phrases(extra));
            if lists_own_metadata(extra) {
                lemma_self_phrases_are_plain();
                assert forall|m: int| 0 <= m < self_exclude_phrases().len() implies all.contains(
                    #[trigger] self_exclude_phrases()[m],
                ) && ascii_norm(self_exclude_phrases()[m]) by {
                    let p = self_exclude_phrases()[m];
                    assert(extra.contains(p));
                    let j = choose|j: int| 0 <= j < extra.len() && extra[j] == p;
                    assert(ascii_norm(extra[j]));
                    lemma_plain_phrases_stay(extra, j);
                    let n = choose|n: int|
                        0 <= n < plain_phrases(extra).len() && plain_phrases(extra)[n] == p;
                    assert(all[base.len() + n] == p);
                }
                assert forall|path: Seq<char>| #[trigger]
                    internal_path(path) implies any_glob(
                    filter@.exclude.folders,
                    ascii_uppered(path),
                    true,
                ) && (hits(filter@.exclude, ascii_uppered(path)) || base_of(path) == APP_DIR@
                    || base_of(path) == VERSION_STORE_DIR@) by {
                    own_paths_are_excluded(all, path);
                }
            }
        }
        filter
    }

    /// Whether a file is in the table. Temp files never are, whatever the phrases say.
    pub fn pass_file(&self, rel: &str) -> (r: bool)
        ensures
            r == (!temp_rel(rel@) && file_passes(self@, uppercase(rel@))),
            is_ascii_chars(rel@) ==> r == (!temp_rel(rel@) && file_passes(
                self@,
                ascii_uppered(rel@),
            )),
    {
        if is_temp_rel(rel) {
            return false;
        }
        let upper = to_uppercase(rel);
        self.passes(upper.as_str())
    }

    /// The decision of [`PathFilter::pass_file`] on a path already in upper case.
    pub fn passes(&self, upper: &str) -> (r: bool)
        ensures
            r == file_passes(self@, upper@),
    {
        proof {
            use_type_invariant(self);
        }
        let path = chars_of(upper);
        if !self.except.hits(path.as_slice()) && self.exclude.hits(path.as_slice()) {
            return false;
        }
        self.wanted.hits(path.as_slice())
    }

    /// Whether a directory is in the table, and whether it is worth looking into.
    pub fn pass_dir(&self, rel: &str) -> (r: (bool, bool))
        ensures
            r.0 == dir_passes(self@, uppercase(rel@)),
            r.1 == dir_descends(self@, uppercase(rel@)),
            is_ascii_chars(rel@) ==> r.0 == dir_passes(self@, ascii_uppered(rel@)) && r.1
                == dir_descends(self@, ascii_uppered(rel@)),
    {
        let upper = to_uppercase(rel);
        self.passes_dir(upper.as_str())
    }

    /// The decision of [`PathFilter::pass_dir`] on a path already in upper case.
    pub fn passes_dir(&self, upper: &str) -> (r: (bool, bool))
        ensures
            r.0 == dir_passes(self@, upper@),
            r.1 == dir_descends(self@, upper@),
    {
        proof {
            use_type_invariant(self);
        }
        let v = chars_of(upper);
        let path = v.as_slice();
        let excepted = self.except.folder_masks.matches(path, true);
        if !excepted && self.exclude.folder_masks.matches(path, true) {
            let child = self.except_blocks_pruning && (self.except.file_masks.matches_begin(path)
                || self.except.folder_masks.matches_begin(path));
            return (false, child);
        }
        if self.wanted.folder_masks.matches(path, true) {
            return (true, true);
        }
        let child = self.wanted.file_masks.matches_begin(path)
            || self.wanted.folder_masks.matches_begin(path);
        (false, child)
    }

    /// Whether an entry may go along when its directory is deleted. Temp files always may.
    pub fn is_deletable(&self, rel: &str) -> (r: bool)
        ensures
            r == (temp_rel(rel@) || hits(self@.deletable, uppercase(rel@))),
            is_ascii_chars(rel@) ==> r == (temp_rel(rel@) || hits(
                self@.deletable,
                ascii_uppered(rel@),
            )),
    {
        if is_temp_rel(rel) {
            return true;
        }
        let upper = to_uppercase(rel);
        self.deletes(upper.as_str())
    }

    /// Whether the deletable list hits a path already in upper case.
    pub fn deletes(&self, upper: &str) -> (r: bool)
        ensures
            r == hits(self@.deletable, upper@),
    {
        proof {
            use_type_invariant(self);
        }
        let path = chars_of(upper);
        self.deletable.hits(path.as_slice())
    }
}

/// What is matched as a parent stays matched for everything below.
pub proof fn what_matches_a_directory_matches_all_it_holds(
    mask: Seq<char>,
    dir: Seq<char>,
    rest: Seq<char>,
)
    requires
        glob(mask, dir, true),
    ensures
        glob(mask, dir.push('/') + rest, true),
    decreases mask.len() + dir.len(),
{
    let below = dir.push('/') + rest;
    if mask.len() == 0 {
        if dir.len() > 0 {
            assert(below[0] == dir[0]);
        } else {
            assert(below[0] == '/');
        }
    } else if mask[0] == '*' {
        if glob(mask.skip(1), dir, true) {
            what_matches_a_directory_matches_all_it_holds(mask.skip(1), dir, rest);
        } else {
            what_matches_a_directory_matches_all_it_holds(mask, dir.skip(1), rest);
            assert(dir.skip(1).push('/') + rest =~= below.skip(1));
        }
    } else {
        what_matches_a_directory_matches_all_it_holds(mask.skip(1), dir.skip(1), rest);
        assert(dir.skip(1).push('/') + rest =~= below.skip(1));
        assert(below[0] == dir[0]);
    }
}

/// A mask that matches something below a directory leads into that directory, or matches the
/// directory itself.
pub proof fn what_matches_below_leads_there(
    mask: Seq<char>,
    dir: Seq<char>,
    rest: Seq<char>,
    allow_parent: bool,
)
    requires
        rest.len() > 0,
        rest[0] != '/',
        glob(mask, dir.push('/') + rest, allow_parent),
    ensures
        begins(mask, dir) || (allow_parent && glob(mask, dir, true)),
    decreases mask.len(),
{
    let below = dir.push('/') + rest;
    if mask.len() == 0 {
        if dir.len() > 0 {
            assert(below[0] == dir[0]);
        }
    } else if mask[0] != '*' {
        if dir.len() > 0 {
            assert(below[0] == dir[0]);
            assert(dir.skip(1).push('/') + rest =~= below.skip(1));
            what_matches_below_leads_there(mask.skip(1), dir.skip(1), rest, allow_parent);
        } else {
            assert(below[0] == '/');
            assert(below.skip(1) =~= rest);
            if mask.len() == 1 {
                assert(mask.skip(1).len() == 0);
                assert(!glob(mask.skip(1), rest, allow_parent));
            }
        }
    }
}

/// Walking the tree and skipping what [`PathFilter::pass_dir`] says to skip loses no file that
/// passes, unless it is let through by an exception while every exception is anchored.
pub proof fn pruning_loses_no_passing_file(f: FilterRules, dir: Seq<char>, rest: Seq<char>)
    requires
        rest.len() > 0,
        rest[0] != '/',
        file_passes(f, dir.push('/') + rest),
        f.blocks_pruning || !hits(f.except, dir.push('/') + rest),
    ensures
        dir_descends(f, dir),
{
    let path = dir.push('/') + rest;
    lemma_last_index(path, '/');
    let i = last_index(path, '/');
    assert(path[dir.len() as int] == '/');
    let up = path.take(i);
    let inner = path.subrange(dir.len() as int + 1, if i > dir.len() {
        i
    } else {
        dir.len() as int + 1
    });
    if i == dir.len() {
        assert(up =~= dir);
    } else {
        assert(i > dir.len());
        assert(up =~= dir.push('/') + inner);
        assert(path[dir.len() as int + 1] == rest[0]);
        assert(inner.len() > 0 && inner[0] == rest[0]);
    }
    if dir_excluded(f, dir) {
        let m = choose|m: Seq<char>| #[trigger]
            f.exclude.folders.contains(m) && glob(m, dir, true);
        if up != dir {
            what_matches_a_directory_matches_all_it_holds(m, dir, inner);
        }
        assert(any_glob(f.exclude.folders, up, true));
        assert(hits(f.exclude, path));
        lemma_hits_lead(f.except, dir, rest);
        assert(any_begins(f.except.files, dir) || any_begins(f.except.folders, dir));
    } else {
        lemma_hits_lead(f.wanted, dir, rest);
    }
}

proof fn lemma_hits_lead(rules: MaskRules, dir: Seq<char>, rest: Seq<char>)
    requires
        rest.len() > 0,
        rest[0] != '/',
        hits(rules, dir.push('/') + rest),
    ensures
        any_begins(rules.files, dir) || any_begins(rules.folders, dir) || any_glob(
            rules.folders,
            dir,
            true,
        ),
{
    let path = dir.push('/') + rest;
    lemma_last_index(path, '/');
    let i = last_index(path, '/');
    assert(path[dir.len() as int] == '/');
    let up = path.take(i);
    if any_glob(rules.files, path, false) {
        let m = choose|m: Seq<char>| #[trigger] rules.files.contains(m) && glob(m, path, false);
        what_matches_below_leads_there(m, dir, rest, false);
        assert(rules.files.contains(m) && begins(m, dir));
    } else {
        let m = choose|m: Seq<char>| #[trigger] rules.folders.contains(m) && glob(m, up, true);
        if i == dir.len() {
            assert(up =~= dir);
        } else {
            let inner = path.subrange(dir.len() as int + 1, i);
            assert(up =~= dir.push('/') + inner);
            assert(path[dir.len() as int + 1] == rest[0]);
            what_matches_below_leads_there(m, dir, inner, true);
            assert(rules.folders.contains(m));
        }
    }
}

/// An exception beats every exclude phrase: what it matches passes if it is included at all.
pub proof fn exceptions_beat_excludes(f: FilterRules, path: Seq<char>)
    requires
        hits(f.except, path),
        hits(f.wanted, path),
    ensures
        file_passes(f, path),
{
}

/// With nothing named as wanted, everything that is not excluded passes.
pub proof fn the_default_include_takes_everything(f: FilterRules, path: Seq<char>)
    requires
        f.wanted.files.contains(seq!['*']),
    ensures
        file_passes(f, path) <==> hits(f.except, path) || !hits(f.exclude, path),
{
    lemma_last_star(seq!['*'], path, false);
    assert(any_glob(f.wanted.files, path, false));
}

/// While every exception is anchored, an excluded directory is neither listed nor looked into.
pub proof fn anchored_exceptions_keep_pruning(f: FilterRules, path: Seq<char>)
    requires
        !f.blocks_pruning,
        dir_excluded(f, path),
    ensures
        !dir_passes(f, path),
        !dir_descends(f, path),
{
}

/// A name that stands for itself in a phrase.
pub open spec fn plain_name(name: Seq<char>) -> bool {
    &&& name.len() > 0
    &&& !carries(name, '*')
    &&& !carries(name, '?')
    &&& !carries(name, '/')
    &&& name.last() != ':'
}

/// `name` is a whole segment of `path`, from position `i` on.
pub open spec fn segment_at(path: Seq<char>, name: Seq<char>, i: int) -> bool {
    &&& 0 <= i
    &&& i + name.len() <= path.len()
    &&& path.subrange(i, i + name.len()) == name
    &&& i == 0 || path[i - 1] == '/'
    &&& i + name.len() == path.len() || path[i + name.len()] == '/'
}

proof fn lemma_rules_grow(phrases: Seq<Seq<char>>, k: int, n: int)
    requires
        0 <= k < n <= phrases.len(),
    ensures
        with_norm(rules_of(phrases.take(k)), norm_phrase(phrases[k])).files.subset_of(
            rules_of(phrases.take(n)).files,
        ),
        with_norm(rules_of(phrases.take(k)), norm_phrase(phrases[k])).folders.subset_of(
            rules_of(phrases.take(n)).folders,
        ),
    decreases n - k,
{
    let now = phrases.take(n);
    assert(now.drop_last() =~= phrases.take(n - 1));
    assert(now.last() == phrases[n - 1]);
    if k < n - 1 {
        lemma_rules_grow(phrases, k, n - 1);
    }
}

proof fn lemma_named_masks(masks: Set<Seq<char>>, name: Seq<char>, path: Seq<char>, i: int, below: bool)
    requires
        plain_name(name),
        masks.contains(name),
        masks.contains(seq!['*', '/'] + name),
        segment_at(path, name, i),
        below || i + name.len() == path.len(),
    ensures
        any_glob(masks, path, below),
{
    if i == 0 {
        plain_masks_match_by_prefix(name, path, below);
        assert(path.subrange(0, name.len() as int) == name);
        if name.len() == path.len() {
            assert(name =~= path);
        }
        assert(name.is_prefix_of(path));
        assert(masks.contains(name) && glob(name, path, below));
    } else {
        let mask = seq!['*', '/'] + name;
        let tail = seq!['/'] + name;
        let rest = path.skip(i - 1);
        assert(mask.skip(1) =~= tail);
        assert forall|j: int| 0 <= j < tail.len() implies tail[j] == rest[j] && tail[j] != '*'
            && tail[j] != '?' by {
            if j > 0 {
                assert(tail[j] == name[j - 1]);
                assert(path.subrange(i, i + name.len())[j - 1] == path[i + j - 1]);
            }
        }
        plain_masks_match_by_prefix(tail, rest, below);
        if tail.len() == rest.len() {
            assert(tail =~= rest);
        }
        assert(tail =~= rest.subrange(0, tail.len() as int));
        a_star_spans_any_run(mask, path, below);
        assert(glob(mask.skip(1), path.skip(i - 1), below));
        assert(masks.contains(mask) && glob(mask, path, below));
    }
}

/// A phrase `*/name/` matches every directory of that name, at the root or at any depth, and with
/// it every directory inside.
pub proof fn a_named_directory_is_matched_anywhere(
    phrases: Seq<Seq<char>>,
    k: int,
    name: Seq<char>,
    dir: Seq<char>,
    i: int,
)
    requires
        0 <= k < phrases.len(),
        plain_name(name),
        norm_phrase(phrases[k]) == seq!['*', '/'] + name + seq!['/'],
        segment_at(dir, name, i),
    ensures
        any_glob(rules_of(phrases).folders, dir, true),
{
    let norm = norm_phrase(phrases[k]);
    let tail = name + seq!['/'];
    assert(norm.skip(2) =~= tail);
    assert(tail.drop_last() =~= name);
    assert(norm.drop_last() =~= seq!['*', '/'] + name);
    assert(norm.drop_last().last() == name.last());
    assert(trim_slashes(tail) == trim_slashes(name) && trim_slashes(name) == name);
    assert(trim_slashes(norm) == trim_slashes(norm.drop_last()));
    lemma_rules_grow(phrases, k, phrases.len() as int);
    assert(phrases.take(phrases.len() as int) =~= phrases);
    lemma_named_masks(rules_of(phrases).folders, name, dir, i, true);
}

/// A phrase `*/name` matches every file of that name, at the root or at any depth.
pub proof fn a_named_file_is_matched_anywhere(
    phrases: Seq<Seq<char>>,
    k: int,
    name: Seq<char>,
    path: Seq<char>,
)
    requires
        0 <= k < phrases.len(),
        plain_name(name),
        norm_phrase(phrases[k]) == seq!['*', '/'] + name,
        base_of(path) == name,
    ensures
        hits(rules_of(phrases), path),
{
    let norm = norm_phrase(phrases[k]);
    assert(norm.skip(2) =~= name);
    assert(norm.last() == name.last());
    lemma_rules_grow(phrases, k, phrases.len() as int);
    assert(phrases.take(phrases.len() as int) =~= phrases);
    lemma_last_index(path, '/');
    let i = last_index(path, '/') + 1;
    assert(path.subrange(i, i + name.len()) =~= name);
    lemma_named_masks(rules_of(phrases).files, name, path, i, false);
}

proof fn lemma_ascii_norm(phrase: Seq<char>)
    requires
        ascii_norm(phrase),
        phrase.len() > 0,
        is_ascii_chars(phrase),
        !white(phrase[0]),
        !white(phrase.last()),
    ensures
        norm_phrase(phrase) == replaced(ascii_uppered(phrase), '\\', '/'),
{
    assert(trim(phrase) == phrase);
}

proof fn lemma_own_norms()
    requires
        ascii_norm("*/.syncdash/"@),
        ascii_norm("*/.version_syncDash/"@),
        ascii_norm("*/.syncdash.lock"@),
        ascii_norm("*/.syncdash-root"@),
    ensures
        norm_phrase("*/.syncdash/"@) == seq!['*', '/'] + ".SYNCDASH"@ + seq!['/'],
        norm_phrase("*/.version_syncDash/"@) == seq!['*', '/'] + ".VERSION_SYNCDASH"@ + seq!['/'],
        norm_phrase("*/.syncdash.lock"@) == seq!['*', '/'] + ".SYNCDASH.LOCK"@,
        norm_phrase("*/.syncdash-root"@) == seq!['*', '/'] + ".SYNCDASH-ROOT"@,
        plain_name(".SYNCDASH"@),
        plain_name(".VERSION_SYNCDASH"@),
        plain_name(".SYNCDASH.LOCK"@),
        plain_name(".SYNCDASH-ROOT"@),
{
    reveal_strlit("*/.syncdash/");
    reveal_strlit("*/.version_syncDash/");
    reveal_strlit("*/.syncdash.lock");
    reveal_strlit("*/.syncdash-root");
    reveal_strlit(".SYNCDASH");
    reveal_strlit(".VERSION_SYNCDASH");
    reveal_strlit(".SYNCDASH.LOCK");
    reveal_strlit(".SYNCDASH-ROOT");
    lemma_ascii_norm("*/.syncdash/"@);
    lemma_ascii_norm("*/.version_syncDash/"@);
    lemma_ascii_norm("*/.syncdash.lock"@);
    lemma_ascii_norm("*/.syncdash-root"@);
    assert(norm_phrase("*/.syncdash/"@) =~= seq!['*', '/'] + ".SYNCDASH"@ + seq!['/']);
    assert(norm_phrase("*/.version_syncDash/"@) =~= seq!['*', '/'] + ".VERSION_SYNCDASH"@
        + seq!['/']);
    assert(norm_phrase("*/.syncdash.lock"@) =~= seq!['*', '/'] + ".SYNCDASH.LOCK"@);
    assert(norm_phrase("*/.syncdash-root"@) =~= seq!['*', '/'] + ".SYNCDASH-ROOT"@);
}

proof fn lemma_defaults_keep_own_out()
    ensures
        keeps_own_out(default_exclude_phrases()),
{
    let all = default_exclude_phrases();
    assert(all[16] == "*/.syncdash/"@);
    assert(all[17] == "*/.version_syncDash/"@);
    assert(all[24] == "*/.syncdash.lock"@);
    assert(all[28] == "*/.syncdash-root"@);
}

proof fn lemma_chosen_keep_own_out(os: Seq<char>, dev: bool)
    ensures
        keeps_own_out(chosen_phrases(os, dev)),
{
    let all = chosen_phrases(os, dev);
    assert(all[0] == "*/.syncdash/"@);
    assert(all[1] == "*/.version_syncDash/"@);
    assert(all[4] == "*/.syncdash.lock"@);
    assert(all[8] == "*/.syncdash-root"@);
}

proof fn lemma_own_files_stay_out(f: FilterRules, base: Seq<Seq<char>>, more: Seq<Seq<char>>)
    requires
        keeps_own_out(base),
        f.exclude == rules_of(base + more),
        forall|j: int| 0 <= j < base.len() ==> ascii_norm(#[trigger] (base + more)[j]),
    ensures
        own_files_stay_out(f),
{
    let all = base + more;
    let app = choose|k: int| 0 <= k < base.len() && base[k] == "*/.syncdash/"@;
    let store = choose|k: int| 0 <= k < base.len() && base[k] == "*/.version_syncDash/"@;
    let lock = choose|k: int| 0 <= k < base.len() && base[k] == "*/.syncdash.lock"@;
    let mark = choose|k: int| 0 <= k < base.len() && base[k] == "*/.syncdash-root"@;
    assert(all[app] == "*/.syncdash/"@);
    assert(all[store] == "*/.version_syncDash/"@);
    assert(all[lock] == "*/.syncdash.lock"@);
    assert(all[mark] == "*/.syncdash-root"@);
    lemma_own_norms();
    assert forall|path: Seq<char>| #[trigger] own_dir(path) implies any_glob(
        f.exclude.folders,
        path,
        true,
    ) by {
        if exists|i: int| segment_at(path, ".SYNCDASH"@, i) {
            let i = choose|i: int| segment_at(path, ".SYNCDASH"@, i);
            a_named_directory_is_matched_anywhere(all, app, ".SYNCDASH"@, path, i);
        } else {
            let i = choose|i: int| segment_at(path, ".VERSION_SYNCDASH"@, i);
            a_named_directory_is_matched_anywhere(all, store, ".VERSION_SYNCDASH"@, path, i);
        }
    }
    assert forall|path: Seq<char>| #[trigger] own_file(path) implies hits(f.exclude, path) by {
        if base_of(path) == ".SYNCDASH-ROOT"@ {
            a_named_file_is_matched_anywhere(all, mark, ".SYNCDASH-ROOT"@, path);
        } else if base_of(path) == ".SYNCDASH.LOCK"@ {
            a_named_file_is_matched_anywhere(all, lock, ".SYNCDASH.LOCK"@, path);
        }
    }
}

proof fn lemma_split_segment(path: Seq<char>, j: int) -> (i: int)
    requires
        0 <= j < split(path, '/').len(),
    ensures
        segment_at(path, split(path, '/')[j], i),
    decreases path.len(),
{
    lemma_first_index(path, '/');
    let f = first_index(path, '/');
    if f >= path.len() {
        assert(path.subrange(0, path.len() as int) =~= path);
        0
    } else if j == 0 {
        assert(path.subrange(0, f) =~= path.take(f));
        0
    } else {
        let rest = path.skip(f + 1);
        let seg = split(path, '/')[j];
        assert(seg == split(rest, '/')[j - 1]);
        let k = lemma_split_segment(rest, j - 1);
        let i = k + f + 1;
        assert(path.subrange(i, i + seg.len()) =~= rest.subrange(k, k + seg.len()));
        if k > 0 {
            assert(rest[k - 1] == path[i - 1]);
        }
        if k + seg.len() < rest.len() {
            assert(rest[k + seg.len()] == path[i + seg.len()]);
        }
        i
    }
}

proof fn lemma_prefix_then_star(name: Seq<char>, path: Seq<char>, below: bool)
    requires
        !carries(name, '*'),
        !carries(name, '?'),
        name.is_prefix_of(path),
    ensures
        glob(name + seq!['*'], path, below),
    decreases name.len(),
{
    let mask = name + seq!['*'];
    if name.len() == 0 {
        assert(mask =~= seq!['*']);
        lemma_last_star(mask, path, below);
    } else {
        assert(name[0] != '*' && name[0] != '?');
        assert(forall|k: int| 0 <= k < name.len() ==> name[k] == path[k]) by {
            assert(name =~= path.subrange(0, name.len() as int));
            assert(forall|k: int|
                0 <= k < name.len() ==> path.subrange(0, name.len() as int)[k] == path[k]);
        }
        let n = name.skip(1);
        let p = path.skip(1);
        assert(forall|k: int| 0 <= k < n.len() ==> n[k] == name[k + 1]);
        assert(n =~= p.subrange(0, n.len() as int));
        lemma_prefix_then_star(n, p, below);
        assert(mask.skip(1) =~= n + seq!['*']);
        assert(mask[0] == name[0]);
    }
}

proof fn lemma_prefix_masks(masks: Set<Seq<char>>, name: Seq<char>, path: Seq<char>, i: int, below: bool)
    requires
        plain_name(name),
        masks.contains(name + seq!['*']),
        masks.contains(seq!['*', '/'] + name + seq!['*']),
        0 <= i <= path.len(),
        name.is_prefix_of(path.skip(i)),
        i == 0 || path[i - 1] == '/',
    ensures
        any_glob(masks, path, below),
{
    if i == 0 {
        assert(path.skip(0) =~= path);
        lemma_prefix_then_star(name, path, below);
    } else {
        let mask = seq!['*', '/'] + name + seq!['*'];
        let tail = seq!['/'] + name;
        let rest = path.skip(i - 1);
        assert(rest.skip(1) =~= path.skip(i));
        assert(tail =~= rest.subrange(0, tail.len() as int)) by {
            assert(name =~= path.skip(i).subrange(0, name.len() as int));
            assert forall|k: int| 0 < k < tail.len() implies tail[k] == rest[k] by {
                assert(path.skip(i).subrange(0, name.len() as int)[k - 1] == rest[k]);
            }
        }
        assert forall|k: int| 0 <= k < tail.len() implies tail[k] != '*' && tail[k] != '?' by {
            if k > 0 {
                assert(tail[k] == name[k - 1]);
            }
        }
        lemma_prefix_then_star(tail, rest, below);
        assert(mask.skip(1) =~= tail + seq!['*']);
        a_star_spans_any_run(mask, path, below);
        assert(glob(mask.skip(1), path.skip(i - 1), below));
    }
}

proof fn lemma_self_norms()
    requires
        forall|k: int|
            0 <= k < self_exclude_phrases().len() ==> ascii_norm(#[trigger] self_exclude_phrases()[k]),
    ensures
        norm_phrase(self_exclude_phrases()[0]) == seq!['*', '/'] + ascii_uppered(APP_DIR@)
            + seq!['/'],
        norm_phrase(self_exclude_phrases()[1]) == seq!['*', '/'] + ascii_uppered(VERSION_STORE_DIR@)
            + seq!['/'],
        norm_phrase(self_exclude_phrases()[2]) == seq!['*', '/'] + ascii_uppered(LOCK_NAME@)
            + seq!['*'],
        norm_phrase(self_exclude_phrases()[3]) == seq!['*', '/'] + ascii_uppered(TEMP_PREFIX@)
            + seq!['*'],
        norm_phrase(self_exclude_phrases()[4]) == seq!['*', '/'] + ascii_uppered(MARKER_NAME@),
        plain_name(ascii_uppered(APP_DIR@)),
        plain_name(ascii_uppered(VERSION_STORE_DIR@)),
        plain_name(ascii_uppered(LOCK_NAME@)),
        plain_name(ascii_uppered(TEMP_PREFIX@)),
        plain_name(ascii_uppered(MARKER_NAME@)),
{
    reveal_strlit("*/");
    reveal_strlit("/");
    reveal_strlit("*");
    reveal_strlit(".syncdash");
    reveal_strlit(".version_syncDash");
    reveal_strlit(".syncdash.lock");
    reveal_strlit(".syncdash.tmp.");
    reveal_strlit(".syncdash-root");
    let all = self_exclude_phrases();
    lemma_ascii_norm(all[0]);
    lemma_ascii_norm(all[1]);
    lemma_ascii_norm(all[2]);
    lemma_ascii_norm(all[3]);
    lemma_ascii_norm(all[4]);
    assert(norm_phrase(all[0]) =~= seq!['*', '/'] + ascii_uppered(APP_DIR@) + seq!['/']);
    assert(norm_phrase(all[1]) =~= seq!['*', '/'] + ascii_uppered(VERSION_STORE_DIR@) + seq!['/']);
    assert(norm_phrase(all[2]) =~= seq!['*', '/'] + ascii_uppered(LOCK_NAME@) + seq!['*']);
    assert(norm_phrase(all[3]) =~= seq!['*', '/'] + ascii_uppered(TEMP_PREFIX@) + seq!['*']);
    assert(norm_phrase(all[4]) =~= seq!['*', '/'] + ascii_uppered(MARKER_NAME@));
}

/// A phrase `*/name*` matches every file and directory whose name begins so, at the root or at any
/// depth, and all that lies below.
pub proof fn a_name_prefix_is_matched_anywhere(
    phrases: Seq<Seq<char>>,
    k: int,
    name: Seq<char>,
    path: Seq<char>,
    i: int,
)
    requires
        0 <= k < phrases.len(),
        plain_name(name),
        norm_phrase(phrases[k]) == seq!['*', '/'] + name + seq!['*'],
        0 <= i <= path.len(),
        name.is_prefix_of(path.skip(i)),
        i == 0 || path[i - 1] == '/',
    ensures
        hits(rules_of(phrases), path),
        any_glob(rules_of(phrases).folders, path, true),
{
    let norm = norm_phrase(phrases[k]);
    let tail = name + seq!['*'];
    assert(norm.skip(2) =~= tail);
    assert(norm[norm.len() - 2] == name.last());
    assert(tail[tail.len() - 2] == name.last());
    lemma_rules_grow(phrases, k, phrases.len() as int);
    assert(phrases.take(phrases.len() as int) =~= phrases);
    lemma_prefix_masks(rules_of(phrases).files, name, path, i, false);
    lemma_prefix_masks(rules_of(phrases).folders, name, path, i, true);
}

/// The phrases for the tool's own metadata match every path that belongs to the tool: as that of a
/// directory always, as that of a file unless nothing but its name speaks for it and that is the
/// name of one of the tool's directories.
pub proof fn own_paths_are_excluded(phrases: Seq<Seq<char>>, path: Seq<char>)
    requires
        forall|k: int|
            0 <= k < self_exclude_phrases().len() ==> phrases.contains(
                #[trigger] self_exclude_phrases()[k],
            ) && ascii_norm(self_exclude_phrases()[k]),
        internal_path(path),
    ensures
        any_glob(rules_of(phrases).folders, ascii_uppered(path), true),
        hits(rules_of(phrases), ascii_uppered(path)) || base_of(path) == APP_DIR@ || base_of(path)
            == VERSION_STORE_DIR@,
{
    let all = self_exclude_phrases();
    lemma_self_norms();
    let j = choose|j: int|
        0 <= j < split(path, '/').len() && internal_segment(#[trigger] split(path, '/')[j]);
    let seg = split(path, '/')[j];
    lemma_split(path, '/');
    let i = lemma_split_segment(path, j);
    let up = ascii_uppered(path);
    assert(path.subrange(i, i + seg.len()) == seg);
    assert forall|n: int| 0 <= n < seg.len() implies up[i + n] == ascii_uppered(seg)[n] by {
        assert(path.subrange(i, i + seg.len())[n] == path[i + n]);
    }
    assert(up.subrange(i, i + seg.len()) =~= ascii_uppered(seg));
    assert(segment_at(up, ascii_uppered(seg), i));
    lemma_last_index(path, '/');
    lemma_last_index(up, '/');
    if LOCK_NAME@.is_prefix_of(seg) || TEMP_PREFIX@.is_prefix_of(seg) {
        let (m, name) = if LOCK_NAME@.is_prefix_of(seg) {
            (2int, LOCK_NAME@)
        } else {
            (3int, TEMP_PREFIX@)
        };
        assert(phrases.contains(all[m]));
        let k = choose|k: int| 0 <= k < phrases.len() && phrases[k] == all[m];
        assert(name =~= seg.subrange(0, name.len() as int));
        assert forall|n: int| 0 <= n < name.len() implies ascii_uppered(name)[n] == up.skip(i)[n] by {
            assert(seg.subrange(0, name.len() as int)[n] == seg[n]);
        }
        assert(ascii_uppered(name) =~= up.skip(i).subrange(0, name.len() as int));
        a_name_prefix_is_matched_anywhere(phrases, k, ascii_uppered(name), up, i);
    } else {
        lemma_named_segment(phrases, path, seg, i);
    }
}

proof fn lemma_named_segment(phrases: Seq<Seq<char>>, path: Seq<char>, seg: Seq<char>, i: int)
    requires
        forall|k: int|
            0 <= k < self_exclude_phrases().len() ==> phrases.contains(
                #[trigger] self_exclude_phrases()[k],
            ) && ascii_norm(self_exclude_phrases()[k]),
        seg == APP_DIR@ || seg == VERSION_STORE_DIR@ || seg == MARKER_NAME@,
        !carries(seg, '/'),
        segment_at(path, seg, i),
        segment_at(ascii_uppered(path), ascii_uppered(seg), i),
    ensures
        any_glob(rules_of(phrases).folders, ascii_uppered(path), true),
        hits(rules_of(phrases), ascii_uppered(path)) || base_of(path) == APP_DIR@ || base_of(path)
            == VERSION_STORE_DIR@,
{
    let all = self_exclude_phrases();
    let up = ascii_uppered(path);
    let name = ascii_uppered(seg);
    let end = i + seg.len();
    let m: int = if seg == APP_DIR@ {
        0
    } else if seg == VERSION_STORE_DIR@ {
        1
    } else {
        4
    };
    lemma_self_norms();
    assert(phrases.contains(all[m]));
    let k = choose|k: int| 0 <= k < phrases.len() && phrases[k] == all[m];
    lemma_last_index(path, '/');
    lemma_last_index(up, '/');
    let last = last_index(up, '/');
    if m == 4 {
        let norm = norm_phrase(phrases[k]);
        assert(norm.skip(2) =~= name);
        assert(norm.last() == name.last());
        lemma_rules_grow(phrases, k, phrases.len() as int);
        assert(phrases.take(phrases.len() as int) =~= phrases);
        lemma_named_masks(rules_of(phrases).folders, name, up, i, true);
        if end == path.len() {
            lemma_named_masks(rules_of(phrases).files, name, up, i, false);
        }
    } else {
        a_named_directory_is_matched_anywhere(phrases, k, name, up, i);
    }
    if end < path.len() {
        let dir = up.take(last);
        assert(up[end] == '/');
        assert(dir.subrange(i, end) =~= up.subrange(i, end));
        assert(segment_at(dir, name, i));
        if m == 4 {
            lemma_named_masks(rules_of(phrases).folders, name, dir, i, true);
        } else {
            a_named_directory_is_matched_anywhere(phrases, k, name, dir, i);
        }
        assert(parent_of(up) == Some(dir));
    } else {
        let l = last_index(path, '/');
        assert(l < i) by {
            if l >= i {
                assert(path.subrange(i, end)[l - i] == path[l]);
                assert(seg[l - i] == '/');
            }
        }
        assert(l + 1 == i);
        assert(base_of(path) =~= path.subrange(i, end));
    }
}

proof fn lemma_plain_phrases_stay(phrases: Seq<Seq<char>>, j: int)
    requires
        0 <= j < phrases.len(),
        exception_of(phrases[j]) is None,
    ensures
        plain_phrases(phrases).contains(phrases[j]),
    decreases phrases.len(),
{
    let less = phrases.drop_last();
    if j == phrases.len() - 1 {
        let kept = plain_phrases(less).push(phrases.last());
        assert(kept[kept.len() - 1] == phrases[j]);
    } else {
        assert(less[j] == phrases[j]);
        lemma_plain_phrases_stay(less, j);
        let n = choose|n: int| 0 <= n < plain_phrases(less).len() && plain_phrases(less)[n] == phrases[j];
        assert(plain_phrases(phrases)[n] == phrases[j]);
    }
}

proof fn lemma_self_phrases_are_plain()
    ensures
        forall|k: int|
            0 <= k < self_exclude_phrases().len() ==> exception_of(
                #[trigger] self_exclude_phrases()[k],
            ) is None,
{
    reveal_strlit("*/");
    reveal_strlit("/");
    reveal_strlit("*");
    reveal_strlit(".syncdash-root");
    let all = self_exclude_phrases();
    assert forall|k: int| 0 <= k < all.len() implies exception_of(#[trigger] all[k]) is None by {
        assert(all[k][0] == '*');
        assert(!white(all[k][0]));
        assert(!white(all[k].last())) by {
            assert(all[k].last() == '/' || all[k].last() == '*' || all[k].last() == 't');
        }
        assert(trim(all[k]) == all[k]);
    }
}

/// A mask for files that some phrase of the list stands for.
spec fn file_mask_of(phrases: Seq<Seq<char>>, mask: Seq<char>) -> bool {
    exists|k: int|
        0 <= k < phrases.len() && with_norm(no_rules(), norm_phrase(#[trigger] phrases[k])).files.contains(
            mask,
        )
}

spec fn folder_mask_of(phrases: Seq<Seq<char>>, mask: Seq<char>) -> bool {
    exists|k: int|
        0 <= k < phrases.len() && with_norm(
            no_rules(),
            norm_phrase(#[trigger] phrases[k]),
        ).folders.contains(mask)
}

proof fn lemma_with_norm_adds(rules: MaskRules, norm: Seq<char>)
    ensures
        forall|m: Seq<char>| #[trigger]
            with_norm(rules, norm).files.contains(m) <==> rules.files.contains(m) || with_norm(
                no_rules(),
                norm,
            ).files.contains(m),
        forall|m: Seq<char>| #[trigger]
            with_norm(rules, norm).folders.contains(m) <==> rules.folders.contains(m) || with_norm(
                no_rules(),
                norm,
            ).folders.contains(m),
{
}

proof fn lemma_rules_are_those_of_the_phrases(phrases: Seq<Seq<char>>)
    ensures
        forall|m: Seq<char>| #[trigger]
            rules_of(phrases).files.contains(m) <==> file_mask_of(phrases, m),
        forall|m: Seq<char>| #[trigger]
            rules_of(phrases).folders.contains(m) <==> folder_mask_of(phrases, m),
    decreases phrases.len(),
{
    if phrases.len() > 0 {
        let less = phrases.drop_last();
        let last = phrases.len() - 1;
        lemma_rules_are_those_of_the_phrases(less);
        lemma_with_norm_adds(rules_of(less), norm_phrase(phrases.last()));
        assert forall|m: Seq<char>| #[trigger] rules_of(phrases).files.contains(m) <==> file_mask_of(
            phrases,
            m,
        ) by {
            if file_mask_of(less, m) {
                let k = choose|k: int|
                    0 <= k < less.len() && with_norm(
                        no_rules(),
                        norm_phrase(#[trigger] less[k]),
                    ).files.contains(m);
                assert(phrases[k] == less[k]);
            }
            if file_mask_of(phrases, m) {
                let k = choose|k: int|
                    0 <= k < phrases.len() && with_norm(
                        no_rules(),
                        norm_phrase(#[trigger] phrases[k]),
                    ).files.contains(m);
                if k < last {
                    assert(less[k] == phrases[k]);
                }
            }
            assert(phrases[last] == phrases.last());
        }
        assert forall|m: Seq<char>| #[trigger] rules_of(phrases).folders.contains(m) <==> folder_mask_of(
            phrases,
            m,
        ) by {
            if folder_mask_of(less, m) {
                let k = choose|k: int|
                    0 <= k < less.len() && with_norm(
                        no_rules(),
                        norm_phrase(#[trigger] less[k]),
                    ).folders.contains(m);
                assert(phrases[k] == less[k]);
            }
            if folder_mask_of(phrases, m) {
                let k = choose|k: int|
                    0 <= k < phrases.len() && with_norm(
                        no_rules(),
                        norm_phrase(#[trigger] phrases[k]),
                    ).folders.contains(m);
                if k < last {
                    assert(less[k] == phrases[k]);
                }
            }
            assert(phrases[last] == phrases.last());
        }
    }
}

/// The two lists hold the same phrases, in whatever order and however often.
pub open spec fn same_phrases(a: Seq<Seq<char>>, b: Seq<Seq<char>>) -> bool {
    forall|p: Seq<char>| #[trigger] a.contains(p) <==> b.contains(p)
}

proof fn lemma_same_rules(a: Seq<Seq<char>>, b: Seq<Seq<char>>)
    requires
        same_phrases(a, b),
    ensures
        rules_of(a) == rules_of(b),
{
    lemma_rules_are_those_of_the_phrases(a);
    lemma_rules_are_those_of_the_phrases(b);
    lemma_masks_carry_over(a, b);
    lemma_masks_carry_over(b, a);
    assert(rules_of(a).files =~= rules_of(b).files);
    assert(rules_of(a).folders =~= rules_of(b).folders);
}

proof fn lemma_masks_carry_over(a: Seq<Seq<char>>, b: Seq<Seq<char>>)
    requires
        same_phrases(a, b),
    ensures
        forall|m: Seq<char>| #[trigger] file_mask_of(a, m) ==> file_mask_of(b, m),
        forall|m: Seq<char>| #[trigger] folder_mask_of(a, m) ==> folder_mask_of(b, m),
{
    assert forall|m: Seq<char>| #[trigger] file_mask_of(a, m) implies file_mask_of(b, m) by {
        let k = choose|k: int|
            0 <= k < a.len() && with_norm(no_rules(), norm_phrase(#[trigger] a[k])).files.contains(m);
        assert(a.contains(a[k]));
        let j = choose|j: int| 0 <= j < b.len() && b[j] == a[k];
        assert(with_norm(no_rules(), norm_phrase(b[j])).files.contains(m));
    }
    assert forall|m: Seq<char>| #[trigger] folder_mask_of(a, m) implies folder_mask_of(b, m) by {
        let k = choose|k: int|
            0 <= k < a.len() && with_norm(no_rules(), norm_phrase(#[trigger] a[k])).folders.contains(m);
        assert(a.contains(a[k]));
        let j = choose|j: int| 0 <= j < b.len() && b[j] == a[k];
        assert(with_norm(no_rules(), norm_phrase(b[j])).folders.contains(m));
    }
}

/// A text that some exception of the list names.
spec fn excepted_by(phrases: Seq<Seq<char>>, rest: Seq<char>) -> bool {
    exists|k: int|
        0 <= k < phrases.len() && exception_of(#[trigger] phrases[k]) == Some(rest) && rest.len() > 0
}

proof fn lemma_sorted_out(phrases: Seq<Seq<char>>)
    ensures
        forall|p: Seq<char>| #[trigger]
            plain_phrases(phrases).contains(p) <==> phrases.contains(p) && exception_of(p) is None,
        forall|rest: Seq<char>| #[trigger]
            exceptions(phrases).contains(rest) <==> excepted_by(phrases, rest),
    decreases phrases.len(),
{
    if phrases.len() > 0 {
        let less = phrases.drop_last();
        let last = phrases.last();
        let n = phrases.len() - 1;
        lemma_sorted_out(less);
        assert(phrases =~= less.push(last));
        assert forall|p: Seq<char>| #[trigger] plain_phrases(phrases).contains(p) <==> phrases.contains(p)
            && exception_of(p) is None by {
            lemma_pushed(less, last, p);
            lemma_pushed(plain_phrases(less), last, p);
        }
        assert forall|rest: Seq<char>| #[trigger] exceptions(phrases).contains(rest) <==> excepted_by(
            phrases,
            rest,
        ) by {
            if exception_of(last) is Some {
                lemma_pushed(exceptions(less), exception_of(last)->0, rest);
            }
            if excepted_by(less, rest) {
                let k = choose|k: int|
                    0 <= k < less.len() && exception_of(#[trigger] less[k]) == Some(rest);
                assert(phrases[k] == less[k]);
            }
            if excepted_by(phrases, rest) {
                let k = choose|k: int|
                    0 <= k < phrases.len() && exception_of(#[trigger] phrases[k]) == Some(rest);
                if k < n {
                    assert(less[k] == phrases[k]);
                }
            }
            assert(phrases[n] == last);
        }
    }
}

proof fn lemma_pushed(s: Seq<Seq<char>>, x: Seq<char>, p: Seq<char>)
    ensures
        s.push(x).contains(p) <==> s.contains(p) || x == p,
{
    if s.contains(p) {
        let k = choose|k: int| 0 <= k < s.len() && s[k] == p;
        assert(s.push(x)[k] == p);
    }
    assert(s.push(x)[s.len() as int] == x);
}

/// What a filter does depends on which phrases it was made of, and not on their order.
pub proof fn the_order_of_phrases_does_not_matter(
    base: Seq<Seq<char>>,
    includes: Seq<Seq<char>>,
    excludes: Seq<Seq<char>>,
    deletables: Seq<Seq<char>>,
    base2: Seq<Seq<char>>,
    includes2: Seq<Seq<char>>,
    excludes2: Seq<Seq<char>>,
    deletables2: Seq<Seq<char>>,
)
    requires
        same_phrases(base, base2),
        same_phrases(includes, includes2),
        same_phrases(excludes, excludes2),
        same_phrases(deletables, deletables2),
    ensures
        rules_on(base, includes, excludes, deletables) == rules_on(
            base2,
            includes2,
            excludes2,
            deletables2,
        ),
{
    if includes.len() > 0 {
        assert(includes.contains(includes[0]));
    }
    if includes2.len() > 0 {
        assert(includes2.contains(includes2[0]));
        assert(includes.contains(includes2[0]));
    }
    lemma_same_rules(includes, includes2);
    lemma_same_rules(deletables, deletables2);
    lemma_sorted_out(excludes);
    lemma_sorted_out(excludes2);
    let all = base + plain_phrases(excludes);
    let all2 = base2 + plain_phrases(excludes2);
    assert forall|p: Seq<char>| #[trigger] all.contains(p) <==> all2.contains(p) by {
        lemma_joined_phrases(base, plain_phrases(excludes), p);
        lemma_joined_phrases(base2, plain_phrases(excludes2), p);
    }
    lemma_same_rules(all, all2);
    let ex = exceptions(excludes);
    let ex2 = exceptions(excludes2);
    assert forall|rest: Seq<char>| #[trigger] ex.contains(rest) <==> ex2.contains(rest) by {
        lemma_exceptions_carry_over(excludes, excludes2, rest);
        lemma_exceptions_carry_over(excludes2, excludes, rest);
    }
    lemma_same_rules(ex, ex2);
    lemma_unanchored_carries_over(ex, ex2);
    lemma_unanchored_carries_over(ex2, ex);
    let x = rules_on(base, includes, excludes, deletables);
    let y = rules_on(base2, includes2, excludes2, deletables2);
    assert(x.wanted == y.wanted);
    assert(x.exclude == y.exclude && x.except == y.except);
}

proof fn lemma_joined_phrases(a: Seq<Seq<char>>, b: Seq<Seq<char>>, p: Seq<char>)
    ensures
        (a + b).contains(p) <==> a.contains(p) || b.contains(p),
{
    if a.contains(p) {
        let k = choose|k: int| 0 <= k < a.len() && a[k] == p;
        assert((a + b)[k] == p);
    }
    if b.contains(p) {
        let k = choose|k: int| 0 <= k < b.len() && b[k] == p;
        assert((a + b)[a.len() + k] == p);
    }
}

proof fn lemma_exceptions_carry_over(a: Seq<Seq<char>>, b: Seq<Seq<char>>, rest: Seq<char>)
    requires
        same_phrases(a, b),
    ensures
        excepted_by(a, rest) ==> excepted_by(b, rest),
{
    if excepted_by(a, rest) {
        let k = choose|k: int| 0 <= k < a.len() && exception_of(#[trigger] a[k]) == Some(rest);
        assert(a.contains(a[k]));
        let j = choose|j: int| 0 <= j < b.len() && b[j] == a[k];
        assert(exception_of(b[j]) == Some(rest));
    }
}

proof fn lemma_unanchored_carries_over(a: Seq<Seq<char>>, b: Seq<Seq<char>>)
    requires
        same_phrases(a, b),
    ensures
        some_unanchored(a) ==> some_unanchored(b),
{
    if some_unanchored(a) {
        let k = choose|k: int| 0 <= k < a.len() && (#[trigger] a[k])[0] != '/';
        assert(a.contains(a[k]));
        let j = choose|j: int| 0 <= j < b.len() && b[j] == a[k];
        assert(b[j][0] != '/');
    }
}

/// The directory of a file that passes is worth looking into, at whatever depth the file lies: every
/// parent of an allowed path is reached, unless the path is let through by an exception while every
/// exception is anchored.
pub proof fn every_parent_of_a_passing_file_is_reached(f: FilterRules, path: Seq<char>, i: int)
    requires
        file_passes(f, path),
        f.blocks_pruning || !hits(f.except, path),
        0 <= i < path.len() - 1,
        path[i] == '/',
        path[i + 1] != '/',
    ensures
        dir_descends(f, path.take(i)),
{
    let dir = path.take(i);
    let rest = path.skip(i + 1);
    assert(path =~= dir.push('/') + rest);
    assert(rest[0] == path[i + 1]);
    pruning_loses_no_passing_file(f, dir, rest);
}

/// A job that excludes what both systems leave behind and what can be made again has all the default
/// excludes.
pub proof fn all_choices_are_all_defaults(
    includes: Seq<Seq<char>>,
    excludes: Seq<Seq<char>>,
    deletables: Seq<Seq<char>>,
)
    ensures
        rules_on(chosen_phrases("auto"@, true), includes, excludes, deletables) == filter_rules(
            includes,
            excludes,
            deletables,
        ),
{
    let a = chosen_phrases("auto"@, true);
    let b = default_exclude_phrases();
    reveal_strlit("auto");
    reveal_strlit("off");
    reveal_strlit("windows");
    reveal_strlit("mac");
    assert("auto"@.len() == 4 && "off"@.len() == 3 && "windows"@.len() == 7 && "mac"@.len() == 3);
    assert(a == own_phrases() + mac_phrases() + windows_phrases() + dev_phrases());
    let from = seq![16int, 17, 22, 23, 24, 25, 26, 27, 28, 9, 10, 11, 12, 13, 18, 19, 14, 15, 20, 21, 0, 1, 2, 3, 4, 5, 6, 7, 8];
    let to = seq![20int, 21, 22, 23, 24, 25, 26, 27, 28, 9, 10, 11, 12, 13, 16, 17, 0, 1, 14, 15, 18, 19, 2, 3, 4, 5, 6, 7, 8];
    assert forall|p: Seq<char>| #[trigger] a.contains(p) implies b.contains(p) by {
        let k = choose|k: int| 0 <= k < a.len() && a[k] == p;
        assert(b[from[k]] == a[k]);
    }
    assert forall|p: Seq<char>| #[trigger] b.contains(p) implies a.contains(p) by {
        let k = choose|k: int| 0 <= k < b.len() && b[k] == p;
        assert(a[to[k]] == b[k]);
    }
    the_order_of_phrases_does_not_matter(
        a,
        includes,
        excludes,
        deletables,
        b,
        includes,
        excludes,
        deletables,
    );
}

/// How the phrases for what can be made again begin, and no other default exclude.
spec fn product_head(s: Seq<char>) -> bool {
    ||| s[2] == 'n' || s[2] == 't' || s[2] == 'b' || s[2] == '_' || s[2] == 'v' || s[2] == 'w'
    ||| s[2] == 'd' && s[3] == 'i'
    ||| s[2] == '.' && s[3] == 'g'
    ||| s[2] == '.' && s[3] == 'v' && s[5] == 'n'
}

proof fn lemma_dev_phrases()
    ensures
        forall|k: int| 0 <= k < dev_phrases().len() ==> product_head(#[trigger] dev_phrases()[k]),
{
    reveal_strlit("*/.git/");
    reveal_strlit("*/node_modules/");
    reveal_strlit("*/target/");
    reveal_strlit("*/build/");
    reveal_strlit("*/dist/");
    reveal_strlit("*/__pycache__/");
    reveal_strlit("*/.venv/");
    reveal_strlit("*/venv/");
    reveal_strlit("*/worktrees/");
}

proof fn lemma_none_of_own_phrases()
    ensures
        forall|k: int| 0 <= k < own_phrases().len() ==> !product_head(#[trigger] own_phrases()[k]),
{
    reveal_strlit("*/.syncdash/");
    reveal_strlit("*/.version_syncDash/");
    reveal_strlit("*/sync.ffs_db");
    reveal_strlit("*/sync.ffs_lock");
    reveal_strlit("*/.syncdash.lock");
    reveal_strlit("*/*.recovery");
    reveal_strlit("*/*.status");
    reveal_strlit("*/.syncdash.tmp.*");
    reveal_strlit("*/.syncdash-root");
}

proof fn lemma_none_of_mac_phrases()
    ensures
        forall|k: int| 0 <= k < mac_phrases().len() ==> !product_head(#[trigger] mac_phrases()[k]),
{
    reveal_strlit("*/.Spotlight-V100/");
    reveal_strlit("*/.fseventsd/");
    reveal_strlit("*/.Trashes/");
    reveal_strlit("*/.TemporaryItems/");
    reveal_strlit("*/.DocumentRevisions-V100/");
    reveal_strlit("*/.DS_Store");
    reveal_strlit("*/._*");
}

proof fn lemma_none_of_windows_phrases()
    ensures
        forall|k: int| 0 <= k < windows_phrases().len() ==> !product_head(#[trigger] windows_phrases()[k]),
{
    reveal_strlit("*/$RECYCLE.BIN/");
    reveal_strlit("*/System Volume Information/");
    reveal_strlit("*/Thumbs.db");
    reveal_strlit("*/desktop.ini");
}

/// What can be made again is excluded on request alone.
pub proof fn products_are_excluded_on_request(os: Seq<char>, p: Seq<char>)
    requires
        dev_phrases().contains(p),
    ensures
        chosen_phrases(os, true).contains(p),
        !chosen_phrases(os, false).contains(p),
{
    lemma_dev_phrases();
    lemma_none_of_own_phrases();
    lemma_none_of_mac_phrases();
    lemma_none_of_windows_phrases();
    let rest = chosen_phrases(os, false);
    assert(chosen_phrases(os, true) =~= rest + dev_phrases());
    lemma_joined_phrases(rest, dev_phrases(), p);
    assert(product_head(p));
    let mac = if os == "off"@ || os == "windows"@ {
        Seq::empty()
    } else {
        mac_phrases()
    };
    let windows = if os == "off"@ || os == "mac"@ {
        Seq::empty()
    } else {
        windows_phrases()
    };
    assert(rest =~= own_phrases() + mac + windows);
    lemma_joined_phrases(own_phrases() + mac, windows, p);
    lemma_joined_phrases(own_phrases(), mac, p);
}

/// Two lists of phrases match what the one or the other matches.
pub proof fn phrases_add_up(a: Seq<Seq<char>>, b: Seq<Seq<char>>, path: Seq<char>)
    ensures
        hits(rules_of(a + b), path) <==> hits(rules_of(a), path) || hits(rules_of(b), path),
        any_glob(rules_of(a + b).folders, path, true) <==> any_glob(rules_of(a).folders, path, true)
            || any_glob(rules_of(b).folders, path, true),
        any_begins(rules_of(a + b).files, path) <==> any_begins(rules_of(a).files, path) || any_begins(
            rules_of(b).files,
            path,
        ),
        any_begins(rules_of(a + b).folders, path) <==> any_begins(rules_of(a).folders, path)
            || any_begins(rules_of(b).folders, path),
{
    lemma_joined_rules(a, b);
    let r = rules_of(a + b);
    let x = rules_of(a);
    let y = rules_of(b);
    lemma_globs_join(r.files, x.files, y.files, path, false);
    lemma_globs_join(r.folders, x.folders, y.folders, path, true);
    if let Some(dir) = parent_of(path) {
        lemma_globs_join(r.folders, x.folders, y.folders, dir, true);
    }
}

proof fn lemma_joined_rules(a: Seq<Seq<char>>, b: Seq<Seq<char>>)
    ensures
        rules_of(a + b).files == rules_of(a).files.union(rules_of(b).files),
        rules_of(a + b).folders == rules_of(a).folders.union(rules_of(b).folders),
    decreases b.len(),
{
    if b.len() == 0 {
        assert(a + b =~= a);
        assert(rules_of(a).files.union(rules_of(b).files) =~= rules_of(a).files);
        assert(rules_of(a).folders.union(rules_of(b).folders) =~= rules_of(a).folders);
    } else {
        let less = b.drop_last();
        lemma_joined_rules(a, less);
        assert((a + b).drop_last() =~= a + less);
        assert((a + b).last() == b.last());
        let norm = norm_phrase(b.last());
        lemma_with_norm_adds(rules_of(a + less), norm);
        lemma_with_norm_adds(rules_of(less), norm);
        assert(rules_of(a + b).files =~= rules_of(a).files.union(rules_of(b).files));
        assert(rules_of(a + b).folders =~= rules_of(a).folders.union(rules_of(b).folders));
    }
}

proof fn lemma_globs_join(
    r: Set<Seq<char>>,
    x: Set<Seq<char>>,
    y: Set<Seq<char>>,
    path: Seq<char>,
    below: bool,
)
    requires
        r == x.union(y),
    ensures
        any_glob(r, path, below) <==> any_glob(x, path, below) || any_glob(y, path, below),
        any_begins(r, path) <==> any_begins(x, path) || any_begins(y, path),
{
    if any_glob(x, path, below) {
        let m = choose|m: Seq<char>| #[trigger] x.contains(m) && glob(m, path, below);
        assert(r.contains(m));
    }
    if any_glob(y, path, below) {
        let m = choose|m: Seq<char>| #[trigger] y.contains(m) && glob(m, path, below);
        assert(r.contains(m));
    }
    if any_glob(r, path, below) {
        let m = choose|m: Seq<char>| #[trigger] r.contains(m) && glob(m, path, below);
        assert(x.contains(m) || y.contains(m));
    }
    if any_begins(x, path) {
        let m = choose|m: Seq<char>| #[trigger] x.contains(m) && begins(m, path);
        assert(r.contains(m));
    }
    if any_begins(y, path) {
        let m = choose|m: Seq<char>| #[trigger] y.contains(m) && begins(m, path);
        assert(r.contains(m));
    }
    if any_begins(r, path) {
        let m = choose|m: Seq<char>| #[trigger] r.contains(m) && begins(m, path);
        assert(x.contains(m) || y.contains(m));
    }
}

/// The rules of one phrase alone.
proof fn lemma_single(p: Seq<char>)
    ensures
        rules_of(seq![p]) == with_norm(no_rules(), norm_phrase(p)),
{
    assert(seq![p].drop_last() =~= Seq::<Seq<char>>::empty());
    assert(rules_of(Seq::<Seq<char>>::empty()) == no_rules());
    assert(seq![p].last() == p);
}

/// A phrase that ends in `/*` means the same as the one that ends in `/`: the directory with all that is
/// in it. In a list the one can take the place of the other.
pub proof fn a_star_below_a_directory_is_the_directory(
    a: Seq<Seq<char>>,
    b: Seq<Seq<char>>,
    k: int,
    stem: Seq<char>,
    path: Seq<char>,
)
    requires
        a.len() == b.len(),
        0 <= k < a.len(),
        forall|i: int| 0 <= i < a.len() && i != k ==> #[trigger] a[i] == b[i],
        stem.len() > 0,
        stem.last() != '/',
        stem != seq!['*'],
        norm_phrase(a[k]) == stem + seq!['/', '*'],
        norm_phrase(b[k]) == stem + seq!['/'],
    ensures
        hits(rules_of(a), path) == hits(rules_of(b), path),
        any_glob(rules_of(a).folders, path, true) == any_glob(rules_of(b).folders, path, true),
        rules_of(a) == rules_of(b),
{
    lemma_rules_are_those_of_the_phrases(a);
    lemma_rules_are_those_of_the_phrases(b);
    let x = stem + seq!['/', '*'];
    let y = stem + seq!['/'];
    lemma_star_stem(stem);
    assert forall|m: Seq<char>| rules_of(a).files.contains(m) <==> rules_of(b).files.contains(m) by {
        if file_mask_of(a, m) {
            let i = choose|i: int|
                0 <= i < a.len() && with_norm(no_rules(), norm_phrase(#[trigger] a[i])).files.contains(m);
            assert(with_norm(no_rules(), norm_phrase(b[i])).files.contains(m));
        }
        if file_mask_of(b, m) {
            let i = choose|i: int|
                0 <= i < b.len() && with_norm(no_rules(), norm_phrase(#[trigger] b[i])).files.contains(m);
            assert(with_norm(no_rules(), norm_phrase(a[i])).files.contains(m));
        }
    }
    assert forall|m: Seq<char>| rules_of(a).folders.contains(m) <==> rules_of(b).folders.contains(m) by {
        if folder_mask_of(a, m) {
            let i = choose|i: int|
                0 <= i < a.len() && with_norm(
                    no_rules(),
                    norm_phrase(#[trigger] a[i]),
                ).folders.contains(m);
            assert(with_norm(no_rules(), norm_phrase(b[i])).folders.contains(m));
        }
        if folder_mask_of(b, m) {
            let i = choose|i: int|
                0 <= i < b.len() && with_norm(
                    no_rules(),
                    norm_phrase(#[trigger] b[i]),
                ).folders.contains(m);
            assert(with_norm(no_rules(), norm_phrase(a[i])).folders.contains(m));
        }
    }
    assert(rules_of(a).files =~= rules_of(b).files);
    assert(rules_of(a).folders =~= rules_of(b).folders);
}

proof fn lemma_star_stem(stem: Seq<char>)
    requires
        stem.len() > 0,
        stem.last() != '/',
        stem != seq!['*'],
    ensures
        with_norm(no_rules(), stem + seq!['/', '*']) == with_norm(no_rules(), stem + seq!['/']),
{
    let x = stem + seq!['/', '*'];
    let y = stem + seq!['/'];
    lemma_star_tail(no_rules(), stem);
    assert(x[0] == stem[0] && y[0] == stem[0]);
    if stem[0] == '/' {
        let rest = stem.skip(1);
        assert(stem.len() > 1);
        assert(rest.last() == stem.last());
        assert(x.skip(1) =~= rest + seq!['/', '*']);
        assert(y.skip(1) =~= rest + seq!['/']);
        lemma_star_tail(no_rules(), rest);
    } else if stem[0] == '*' && stem.len() == 1 {
        assert(stem =~= seq!['*']);
    } else if stem.len() > 1 && stem[0] == '*' && stem[1] == '/' {
        assert(x[1] == stem[1] && y[1] == stem[1]);
        let rest = stem.skip(2);
        assert(stem.len() > 2);
        assert(rest.last() == stem.last());
        assert(x.skip(2) =~= rest + seq!['/', '*']);
        assert(y.skip(2) =~= rest + seq!['/']);
        lemma_star_tail(with_tail(no_rules(), x), rest);
    } else if stem.len() > 1 {
        assert(x[1] == stem[1] && y[1] == stem[1]);
    }
}

proof fn lemma_star_tail(rules: MaskRules, t: Seq<char>)
    requires
        t.len() > 0,
        t.last() != '/',
    ensures
        with_tail(rules, t + seq!['/', '*']) == with_tail(rules, t + seq!['/']),
{
    let x = t + seq!['/', '*'];
    let y = t + seq!['/'];
    assert(x.take(x.len() - 2) =~= t);
    assert(y.drop_last() =~= t);
    assert(trim_slashes(y) == trim_slashes(t) && trim_slashes(t) == t);
}

/// A path with no wildcard in it that a phrase can name: no slash at either end, no colon at its end.
pub open spec fn plain_path(p: Seq<char>) -> bool {
    &&& p.len() > 0
    &&& !carries(p, '*')
    &&& !carries(p, '?')
    &&& p[0] != '/'
    &&& p.last() != '/'
    &&& p.last() != ':'
}

/// `path` lies below `dir`.
pub open spec fn lies_below(path: Seq<char>, dir: Seq<char>) -> bool {
    dir.push('/').is_prefix_of(path)
}

proof fn lemma_plain_mask(p: Seq<char>, path: Seq<char>)
    requires
        plain_path(p),
    ensures
        glob(p, path, false) <==> path == p,
        glob(p, path, true) <==> path == p || lies_below(path, p),
        parent_of(path) matches Some(dir) ==> (glob(p, dir, true) ==> lies_below(path, p)),
        lies_below(path, p) ==> (parent_of(path) matches Some(dir) && glob(p, dir, true)),
{
    plain_masks_match_by_prefix(p, path, false);
    plain_masks_match_by_prefix(p, path, true);
    let n = p.len() as int;
    if p.is_prefix_of(path) && p.len() < path.len() && path[n] == '/' {
        assert forall|i: int| 0 <= i < n implies p[i] == path[i] by {
            assert(p[i] == path.subrange(0, n)[i]);
        }
        assert(p.push('/') =~= path.subrange(0, n + 1));
    }
    if lies_below(path, p) {
        assert(p.push('/') == path.subrange(0, n + 1));
        assert forall|i: int| 0 <= i < n implies p[i] == path[i] by {
            assert(p.push('/')[i] == path.subrange(0, n + 1)[i]);
        }
        assert(p.push('/')[n] == path.subrange(0, n + 1)[n]);
        assert(p =~= path.subrange(0, n));
    }
    lemma_last_index(path, '/');
    if let Some(dir) = parent_of(path) {
        plain_masks_match_by_prefix(p, dir, true);
        let j = dir.len() as int;
        if glob(p, dir, true) {
            if p == dir {
                assert(p.push('/') =~= path.subrange(0, n + 1));
            } else {
                assert(p =~= dir.subrange(0, n));
                assert forall|i: int| 0 <= i < n implies p[i] == path[i] by {
                    assert(p[i] == dir.subrange(0, n)[i]);
                }
                assert(p.push('/') =~= path.subrange(0, n + 1));
            }
        }
        if lies_below(path, p) {
            assert(j >= n);
            if j == n {
                assert(p =~= dir);
            } else {
                assert(p =~= dir.subrange(0, n));
                assert(dir[n] == '/');
            }
        }
    } else if lies_below(path, p) {
        assert(path[n] == '/');
    }
}

proof fn lemma_one_mask(masks: Set<Seq<char>>, m: Seq<char>, path: Seq<char>, below: bool)
    requires
        forall|x: Seq<char>| #[trigger] masks.contains(x) <==> x == m,
    ensures
        any_glob(masks, path, below) <==> glob(m, path, below),
        any_begins(masks, path) <==> begins(m, path),
{
    assert(masks.contains(m));
}

/// What a phrase with a leading slash and no wildcard means, as it stands, with `/` or `/*` behind it, and
/// with `:` behind it: the file or directory of that path with all below it, the directory and all below
/// it, the file alone. None of them matches anything else.
pub proof fn what_an_anchored_phrase_matches(phrase: Seq<char>, p: Seq<char>, path: Seq<char>)
    requires
        plain_path(p),
    ensures
        norm_phrase(phrase) == seq!['/'] + p ==> {
            &&& hits(rules_of(seq![phrase]), path) <==> path == p || lies_below(path, p)
            &&& any_glob(rules_of(seq![phrase]).folders, path, true) <==> path == p || lies_below(path, p)
        },
        norm_phrase(phrase) == seq!['/'] + p + seq!['/'] || norm_phrase(phrase) == seq!['/'] + p + seq![
            '/',
            '*',
        ] ==> {
            &&& hits(rules_of(seq![phrase]), path) <==> lies_below(path, p)
            &&& any_glob(rules_of(seq![phrase]).folders, path, true) <==> path == p || lies_below(path, p)
        },
        norm_phrase(phrase) == seq!['/'] + p + seq![':'] ==> {
            &&& hits(rules_of(seq![phrase]), path) <==> path == p
            &&& !any_glob(rules_of(seq![phrase]).folders, path, true)
        },
{
    let norm = norm_phrase(phrase);
    lemma_single(phrase);
    lemma_plain_mask(p, path);
    let r = rules_of(seq![phrase]);
    if norm == seq!['/'] + p {
        assert(norm.skip(1) =~= p);
        assert(p.last() != '*') by {
            assert(p[p.len() - 1] != '*');
        }
        lemma_one_mask(r.files, p, path, false);
        lemma_one_mask(r.folders, p, path, true);
        if let Some(dir) = parent_of(path) {
            lemma_one_mask(r.folders, p, dir, true);
        }
    } else if norm == seq!['/'] + p + seq!['/'] || norm == seq!['/'] + p + seq!['/', '*'] {
        lemma_star_tail(no_rules(), p);
        if norm == seq!['/'] + p + seq!['/'] {
            assert(norm.skip(1) =~= p + seq!['/']);
        } else {
            assert(norm.skip(1) =~= p + seq!['/', '*']);
        }
        let t = p + seq!['/'];
        assert(t.drop_last() =~= p);
        assert(trim_slashes(t) == trim_slashes(p) && trim_slashes(p) == p);
        lemma_one_mask(r.folders, p, path, true);
        if let Some(dir) = parent_of(path) {
            lemma_one_mask(r.folders, p, dir, true);
        }
    } else if norm == seq!['/'] + p + seq![':'] {
        assert(norm.skip(1) =~= p + seq![':']);
        assert((p + seq![':']).drop_last() =~= p);
        lemma_one_mask(r.files, p, path, false);
    }
}

/// A question mark stands for exactly one character, and never for a slash; a star may stand for one.
pub proof fn a_question_mark_takes_one_character(mask: Seq<char>, path: Seq<char>, below: bool)
    ensures
        glob(seq!['?'] + mask, path, below) <==> path.len() > 0 && path[0] != '/' && glob(
            mask,
            path.skip(1),
            below,
        ),
        glob(seq!['?'], path, false) <==> path.len() == 1 && path[0] != '/',
        glob(seq!['*'], path, below),
{
    assert((seq!['?'] + mask).skip(1) =~= mask);
    assert(seq!['?'].skip(1) =~= Seq::<char>::empty());
    if path.len() > 0 {
        assert(glob(Seq::<char>::empty(), path.skip(1), false) <==> path.skip(1).len() == 0);
    }
    lemma_last_star(seq!['*'], path, below);
}

/// A phrase `*/name/` matches nothing else: what it matches has that name for one of its directories.
pub proof fn a_named_directory_is_all_that_is_matched(phrase: Seq<char>, name: Seq<char>, path: Seq<char>)
    requires
        plain_name(name),
        norm_phrase(phrase) == seq!['*', '/'] + name + seq!['/'],
    ensures
        any_glob(rules_of(seq![phrase]).folders, path, true) <==> exists|i: int| #[trigger]
            segment_at(path, name, i),
        hits(rules_of(seq![phrase]), path) <==> (parent_of(path) matches Some(dir) && exists|i: int| #[trigger]
            segment_at(dir, name, i)),
{
    let norm = norm_phrase(phrase);
    let tail = name + seq!['/'];
    let wide = seq!['*', '/'] + name;
    lemma_single(phrase);
    assert(norm.skip(2) =~= tail);
    assert(tail.drop_last() =~= name);
    assert(norm.drop_last() =~= wide);
    assert(wide.last() == name.last());
    assert(trim_slashes(tail) == trim_slashes(name) && trim_slashes(name) == name);
    assert(trim_slashes(norm) == trim_slashes(wide) && trim_slashes(wide) == wide);
    let r = rules_of(seq![phrase]);
    assert(forall|m: Seq<char>| #[trigger] r.folders.contains(m) <==> m == name || m == wide);
    lemma_named_exactly(r.folders, name, path);
    if let Some(dir) = parent_of(path) {
        lemma_named_exactly(r.folders, name, dir);
    }
}

proof fn lemma_named_exactly(masks: Set<Seq<char>>, name: Seq<char>, path: Seq<char>)
    requires
        plain_name(name),
        forall|m: Seq<char>| #[trigger] masks.contains(m) <==> m == name || m == seq!['*', '/'] + name,
    ensures
        any_glob(masks, path, true) <==> exists|i: int| #[trigger] segment_at(path, name, i),
{
    let wide = seq!['*', '/'] + name;
    assert(masks.contains(name) && masks.contains(wide));
    if exists|i: int| #[trigger] segment_at(path, name, i) {
        let i = choose|i: int| #[trigger] segment_at(path, name, i);
        lemma_named_masks(masks, name, path, i, true);
    }
    if any_glob(masks, path, true) {
        let m = choose|m: Seq<char>| #[trigger] masks.contains(m) && glob(m, path, true);
        if m == name {
            plain_masks_match_by_prefix(name, path, true);
            assert(path.subrange(0, name.len() as int) =~= name);
            assert(segment_at(path, name, 0));
        } else {
            a_star_spans_any_run(wide, path, true);
            let k = choose|k: int| 0 <= k <= path.len() && #[trigger] glob(wide.skip(1), path.skip(k), true);
            let t = seq!['/'] + name;
            let rest = path.skip(k);
            assert(wide.skip(1) =~= t);
            assert forall|j: int| 0 <= j < t.len() implies t[j] != '*' && t[j] != '?' by {
                if j > 0 {
                    assert(t[j] == name[j - 1]);
                }
            }
            plain_masks_match_by_prefix(t, rest, true);
            assert forall|j: int| 0 <= j < t.len() implies t[j] == rest[j] by {
                if t != rest {
                    assert(t[j] == rest.subrange(0, t.len() as int)[j]);
                }
            }
            let i = k + 1;
            assert(path[k] == rest[0] && rest[0] == t[0]);
            assert forall|j: int| 0 <= j < name.len() implies name[j] == path[i + j] by {
                assert(name[j] == t[j + 1]);
                assert(rest[j + 1] == path[k + j + 1]);
            }
            assert(path.subrange(i, i + name.len()) =~= name);
            if i + name.len() < path.len() {
                assert(rest[t.len() as int] == path[i + name.len()]);
            }
            assert(segment_at(path, name, i));
        }
    }
}

proof fn lemma_more_phrases(list: Seq<Seq<char>>, p: Seq<char>)
    ensures
        exception_of(p) is None ==> plain_phrases(list.push(p)) == plain_phrases(list).push(p) && exceptions(
            list.push(p),
        ) == exceptions(list),
        exception_of(p) matches Some(rest) ==> plain_phrases(list.push(p)) == plain_phrases(list) && exceptions(
            list.push(p),
        ) == if rest.len() == 0 {
            exceptions(list)
        } else {
            exceptions(list).push(rest)
        },
{
    assert(list.push(p).drop_last() =~= list);
    assert(list.push(p).last() == p);
}

proof fn lemma_grown(list: Seq<Seq<char>>, p: Seq<char>, path: Seq<char>)
    ensures
        hits(rules_of(list.push(p)), path) <==> hits(rules_of(list), path) || hits(
            rules_of(seq![p]),
            path,
        ),
        any_glob(rules_of(list.push(p)).folders, path, true) <==> any_glob(
            rules_of(list).folders,
            path,
            true,
        ) || any_glob(rules_of(seq![p]).folders, path, true),
{
    assert(list.push(p) =~= list + seq![p]);
    phrases_add_up(list, seq![p], path);
}

/// One more exclude phrase takes away exactly what it matches, but for what an exception lets through;
/// one more exception lets through exactly what it matches, if that is wanted; a file that nothing wants
/// never passes.
pub proof fn one_more_phrase_changes_what_it_matches(
    base: Seq<Seq<char>>,
    includes: Seq<Seq<char>>,
    excludes: Seq<Seq<char>>,
    deletables: Seq<Seq<char>>,
    p: Seq<char>,
    path: Seq<char>,
)
    ensures
        ({
            let was = rules_on(base, includes, excludes, deletables);
            let now = rules_on(base, includes, excludes.push(p), deletables);
            match exception_of(p) {
                None => file_passes(now, path) <==> file_passes(was, path) && (hits(was.except, path)
                    || !hits(rules_of(seq![p]), path)),
                Some(rest) => file_passes(now, path) <==> file_passes(was, path) || (rest.len() > 0 && hits(
                    rules_of(seq![rest]),
                    path,
                ) && hits(was.wanted, path)),
            }
        }),
{
    lemma_more_phrases(excludes, p);
    match exception_of(p) {
        None => {
            let plain = plain_phrases(excludes);
            assert(base + plain.push(p) =~= (base + plain).push(p));
            lemma_grown(base + plain, p, path);
        },
        Some(rest) => {
            if rest.len() > 0 {
                lemma_grown(exceptions(excludes), rest, path);
            }
        },
    }
}

/// One more include phrase lets through what it matches, unless that is excluded; and the first one shuts
/// out all else.
pub proof fn includes_let_through_what_they_match(
    base: Seq<Seq<char>>,
    includes: Seq<Seq<char>>,
    excludes: Seq<Seq<char>>,
    deletables: Seq<Seq<char>>,
    p: Seq<char>,
    path: Seq<char>,
)
    ensures
        ({
            let was = rules_on(base, includes, excludes, deletables);
            let now = rules_on(base, includes.push(p), excludes, deletables);
            let allowed = hits(was.except, path) || !hits(was.exclude, path);
            &&& includes.len() == 0 ==> (file_passes(now, path) <==> allowed && hits(
                rules_of(seq![p]),
                path,
            ))
            &&& includes.len() > 0 ==> (file_passes(now, path) <==> file_passes(was, path) || (allowed
                && hits(rules_of(seq![p]), path)))
        }),
{
    if includes.len() == 0 {
        assert(includes.push(p) =~= seq![p]);
    } else {
        lemma_grown(includes, p, path);
    }
}

/// What the phrases for deletable things match is what may go with its directory, and no other list
/// plays a part in that.
pub proof fn deletables_are_what_their_phrases_match(
    base: Seq<Seq<char>>,
    includes: Seq<Seq<char>>,
    excludes: Seq<Seq<char>>,
    deletables: Seq<Seq<char>>,
    p: Seq<char>,
    path: Seq<char>,
)
    ensures
        !hits(rules_on(base, includes, excludes, Seq::empty()).deletable, path),
        hits(rules_on(base, includes, excludes, deletables.push(p)).deletable, path) <==> hits(
            rules_on(base, includes, excludes, deletables).deletable,
            path,
        ) || hits(rules_of(seq![p]), path),
        file_passes(rules_on(base, includes, excludes, deletables.push(p)), path) == file_passes(
            rules_on(base, includes, excludes, deletables),
            path,
        ),
{
    lemma_grown(deletables, p, path);
}

/// A directory is listed exactly where it is wanted and not excluded, or let through by an exception; and
/// an excluded one is looked into only for an exception that is not anchored and may match below.
pub proof fn directories_follow_the_folder_phrases(f: FilterRules, path: Seq<char>)
    ensures
        any_glob(f.wanted.folders, path, true) && (any_glob(f.except.folders, path, true) || !any_glob(
            f.exclude.folders,
            path,
            true,
        )) <==> dir_passes(f, path),
        dir_passes(f, path) ==> dir_descends(f, path),
        any_glob(f.exclude.folders, path, true) && !any_glob(f.except.folders, path, true) && dir_descends(
            f,
            path,
        ) ==> f.blocks_pruning && (any_begins(f.except.files, path) || any_begins(f.except.folders, path)),
        !any_glob(f.exclude.folders, path, true) && dir_descends(f, path) ==> any_glob(
            f.wanted.folders,
            path,
            true,
        ) || any_begins(f.wanted.files, path) || any_begins(f.wanted.folders, path),
{
}

/// A phrase is an exception exactly where it begins with an exclamation mark, and what it excepts is the
/// rest of it.
pub proof fn an_exclamation_mark_makes_an_exception(t: Seq<char>)
    requires
        t.len() > 0,
        trim(t) == t,
    ensures
        exception_of(seq!['!'] + t) == Some(t),
        t[0] != '!' ==> exception_of(t) is None,
{
    let p = seq!['!'] + t;
    assert(p.skip(1) =~= t);
    assert(p.last() == t.last());
    lemma_trimming_shortens(t);
    lemma_trimming_shortens(crate::strings::trim_start(t));
    lemma_trimming_shortens(t.skip(1));
    if white(t.last()) && !white(t[0]) {
        lemma_trimming_shortens(t.drop_last());
    }
    assert(!white(t[0]) && !white(t.last()));
    assert(crate::strings::trim_start(p) == p);
    assert(trim(p) == p);
}

proof fn lemma_trimming_shortens(s: Seq<char>)
    ensures
        crate::strings::trim_start(s).len() <= s.len(),
        crate::strings::trim_end(s).len() <= s.len(),
    decreases s.len(),
{
    if s.len() > 0 {
        lemma_trimming_shortens(s.skip(1));
        lemma_trimming_shortens(s.drop_last());
    }
}

/// A phrase has no backslashes once it is read: either slash parts segments.
pub proof fn both_slashes_are_the_same(phrase: Seq<char>)
    ensures
        !carries(norm_phrase(phrase), '\\'),
        norm_phrase(phrase).len() == uppercase(trim(phrase)).len(),
        forall|i: int|
            0 <= i < norm_phrase(phrase).len() ==> (#[trigger] norm_phrase(phrase)[i] == '/' <==> uppercase(
                trim(phrase),
            )[i] == '/' || uppercase(trim(phrase))[i] == '\\'),
{
}

/// Only an exception that is not anchored at the root keeps excluded directories from being skipped.
pub proof fn only_unanchored_exceptions_block_pruning(
    base: Seq<Seq<char>>,
    includes: Seq<Seq<char>>,
    excludes: Seq<Seq<char>>,
    deletables: Seq<Seq<char>>,
)
    ensures
        rules_on(base, includes, excludes, deletables).blocks_pruning <==> exists|k: int|
            0 <= k < excludes.len() && (exception_of(#[trigger] excludes[k]) matches Some(rest) && rest.len()
                > 0 && rest[0] != '/'),
{
    let list = exceptions(excludes);
    lemma_sorted_out(excludes);
    if some_unanchored(list) {
        let i = choose|i: int| 0 <= i < list.len() && (#[trigger] list[i])[0] != '/';
        assert(list.contains(list[i]));
        assert(excepted_by(excludes, list[i]));
        let k = choose|k: int|
            0 <= k < excludes.len() && exception_of(#[trigger] excludes[k]) == Some(list[i]);
        assert(exception_of(excludes[k]) matches Some(rest) && rest.len() > 0 && rest[0] != '/');
    }
    if exists|k: int|
        0 <= k < excludes.len() && (exception_of(#[trigger] excludes[k]) matches Some(rest) && rest.len() > 0
            && rest[0] != '/') {
        let k = choose|k: int|
            0 <= k < excludes.len() && (exception_of(#[trigger] excludes[k]) matches Some(rest) && rest.len()
                > 0 && rest[0] != '/');
        let rest = exception_of(excludes[k])->0;
        assert(excepted_by(excludes, rest));
        assert(list.contains(rest));
        let i = choose|i: int| 0 <= i < list.len() && list[i] == rest;
        assert(list[i][0] != '/');
    }
}

/// Of what the systems leave behind a job excludes what it asks for: with `off` nothing, with the name of a
/// system what that one leaves, and otherwise both; the tool's own files always, and what can be made again
/// on request.
pub proof fn jobs_choose_what_is_left_behind(os: Seq<char>, dev: bool, p: Seq<char>)
    ensures
        own_phrases().contains(p) ==> chosen_phrases(os, dev).contains(p),
        dev && dev_phrases().contains(p) ==> chosen_phrases(os, dev).contains(p),
        os != "off"@ && os != "windows"@ && mac_phrases().contains(p) ==> chosen_phrases(os, dev).contains(p),
        os != "off"@ && os != "mac"@ && windows_phrases().contains(p) ==> chosen_phrases(os, dev).contains(p),
        chosen_phrases("off"@, false).contains(p) ==> own_phrases().contains(p),
        chosen_phrases("mac"@, false).contains(p) ==> own_phrases().contains(p) || mac_phrases().contains(p),
        chosen_phrases("windows"@, false).contains(p) ==> own_phrases().contains(p)
            || windows_phrases().contains(p),
{
    reveal_strlit("off");
    reveal_strlit("windows");
    reveal_strlit("mac");
    assert("off"@[0] == 'o' && "mac"@[0] == 'm' && "windows"@.len() == 7 && "mac"@.len() == 3);
    lemma_chosen(os, dev, p);
    lemma_chosen("off"@, false, p);
    lemma_chosen("mac"@, false, p);
    lemma_chosen("windows"@, false, p);
}

proof fn lemma_chosen(os: Seq<char>, dev: bool, p: Seq<char>)
    ensures
        ({
            let mac = if os == "off"@ || os == "windows"@ {
                Seq::empty()
            } else {
                mac_phrases()
            };
            let windows = if os == "off"@ || os == "mac"@ {
                Seq::empty()
            } else {
                windows_phrases()
            };
            let made = if dev {
                dev_phrases()
            } else {
                Seq::empty()
            };
            chosen_phrases(os, dev).contains(p) <==> own_phrases().contains(p) || mac.contains(p)
                || windows.contains(p) || made.contains(p)
        }),
{
    let mac = if os == "off"@ || os == "windows"@ {
        Seq::empty()
    } else {
        mac_phrases()
    };
    let windows = if os == "off"@ || os == "mac"@ {
        Seq::empty()
    } else {
        windows_phrases()
    };
    let made = if dev {
        dev_phrases()
    } else {
        Seq::empty()
    };
    let own = own_phrases();
    lemma_joined_phrases(own, mac, p);
    lemma_joined_phrases(own + mac, windows, p);
    lemma_joined_phrases(own + mac + windows, made, p);
}

} // verus!
