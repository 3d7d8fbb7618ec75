//! The order of file paths: component by component, as `Path` compares them.

use vstd::prelude::*;

use crate::formatter::total_chars;
use crate::slicer::FileContent;
use crate::text::{chars_of, views};

verus! {

/// The components of a path as `Path::components` yields them, each as text: `/` for the
/// root, `.` for a leading current directory, `..` for a parent directory.
pub uninterp spec fn path_components(path: Seq<char>) -> Seq<Seq<char>>;

/// Calls `Path::components` and turns each component into text.
#[verifier::external_body]
pub(crate) fn components_of(path: &str) -> (out: Vec<String>)
    ensures
        out@.map_values(|c: String| c@) == path_components(path@),
{
    std::path::Path::new(path).components().map(|c| c.as_os_str().to_string_lossy().into_owned()).collect()
}

/// The components of a path, each as characters.
pub fn path_key(path: &str) -> (out: Vec<Vec<char>>)
    ensures
        views(out@) == path_components(path@),
{
    let comps = components_of(path);
    let mut out: Vec<Vec<char>> = Vec::new();
    let mut i: usize = 0;
    while i < comps.len()
        invariant
            i <= comps@.len(),
            comps@.map_values(|c: String| c@) == path_components(path@),
            views(out@) == path_components(path@).take(i as int),
        decreases comps@.len() - i,
    {
        let c = chars_of(comps[i].as_str());
        let ghost before = views(out@);
        out.push(c);
        proof {
            assert(views(out@) =~= before.push(c@));
            assert(path_components(path@).take(i + 1) =~= path_components(path@).take(i as int).push(
                comps@[i as int]@,
            ));
        }
        i = i + 1;
    }
    proof {
        assert(path_components(path@).take(comps@.len() as int) =~= path_components(path@));
    }
    out
}

/// Characters compared by code point, shorter prefix first.
pub open spec fn chars_lt(a: Seq<char>, b: Seq<char>) -> bool
    decreases a.len(),
{
    if a.len() == 0 {
        b.len() > 0
    } else if b.len() == 0 {
        false
    } else if a[0] != b[0] {
        (a[0] as int) < (b[0] as int)
    } else {
        chars_lt(a.drop_first(), b.drop_first())
    }
}

/// Where a component sorts by its kind: the root, then `.`, then `..`, then names.
pub open spec fn component_rank(c: Seq<char>) -> int {
    if c == seq!['/'] {
        1
    } else if c == seq!['.'] {
        2
    } else if c == seq!['.', '.'] {
        3
    } else {
        4
    }
}

/// The order of components: by kind, names by their characters.
pub open spec fn component_lt(a: Seq<char>, b: Seq<char>) -> bool {
    component_rank(a) < component_rank(b) || (component_rank(a) == component_rank(b)
        && component_rank(a) == 4 && chars_lt(a, b))
}

/// The order of paths: their components compared one by one, a proper prefix first.
pub open spec fn key_lt(a: Seq<Seq<char>>, b: Seq<Seq<char>>) -> bool
    decreases a.len(),
{
    if a.len() == 0 {
        b.len() > 0
    } else if b.len() == 0 {
        false
    } else if a[0] != b[0] {
        component_lt(a[0], b[0])
    } else {
        key_lt(a.drop_first(), b.drop_first())
    }
}

/// Path `a` sorts before path `b`.
#[verifier::opaque]
pub open spec fn path_lt(a: Seq<char>, b: Seq<char>) -> bool {
    key_lt(path_components(a), path_components(b))
}

/// Paths `a` and `b` name the same path: they have the same components.
#[verifier::opaque]
pub open spec fn same_path(a: Seq<char>, b: Seq<char>) -> bool {
    path_components(a) == path_components(b)
}

pub proof fn lemma_chars_lt_irreflexive(a: Seq<char>)
    ensures
        !chars_lt(a, a),
    decreases a.len(),
{
    if a.len() > 0 {
        lemma_chars_lt_irreflexive(a.drop_first());
    }
}

pub proof fn lemma_chars_lt_transitive(a: Seq<char>, b: Seq<char>, c: Seq<char>)
    requires
        chars_lt(a, b),
        chars_lt(b, c),
    ensures
        chars_lt(a, c),
    decreases a.len(),
{
    if a.len() > 0 && b.len() > 0 && c.len() > 0 {
        if a[0] == b[0] && b[0] == c[0] {
            lemma_chars_lt_transitive(a.drop_first(), b.drop_first(), c.drop_first());
        }
    }
}

pub proof fn lemma_chars_lt_total(a: Seq<char>, b: Seq<char>)
    requires
        a != b,
    ensures
        chars_lt(a, b) || chars_lt(b, a),
    decreases a.len(),
{
    if a.len() == 0 {
        assert(b.len() > 0) by {
            if b.len() == 0 {
                assert(a =~= b);
            }
        }
    } else if b.len() > 0 && a[0] == b[0] {
        if a.drop_first() == b.drop_first() {
            assert(a =~= seq![a[0]] + a.drop_first());
            assert(b =~= seq![b[0]] + b.drop_first());
        }
        lemma_chars_lt_total(a.drop_first(), b.drop_first());
    } else if b.len() > 0 {
        let x = a[0];
        let y = b[0];
        assert(x as int != y as int);
    }
}

pub proof fn lemma_component_lt_facts(a: Seq<char>, b: Seq<char>, c: Seq<char>)
    ensures
        !component_lt(a, a),
        component_lt(a, b) && component_lt(b, c) ==> component_lt(a, c),
        a != b ==> component_lt(a, b) || component_lt(b, a),
{
    lemma_chars_lt_irreflexive(a);
    if component_lt(a, b) && component_lt(b, c) {
        if component_rank(a) == 4 && component_rank(b) == 4 && component_rank(c) == 4 {
            lemma_chars_lt_transitive(a, b, c);
        }
    }
    if a != b {
        if component_rank(a) == 4 && component_rank(b) == 4 {
            lemma_chars_lt_total(a, b);
        }
    }
}

pub proof fn lemma_key_lt_irreflexive(a: Seq<Seq<char>>)
    ensures
        !key_lt(a, a),
    decreases a.len(),
{
    if a.len() > 0 {
        lemma_key_lt_irreflexive(a.drop_first());
    }
}

pub proof fn lemma_key_lt_transitive(a: Seq<Seq<char>>, b: Seq<Seq<char>>, c: Seq<Seq<char>>)
    requires
        key_lt(a, b),
        key_lt(b, c),
    ensures
        key_lt(a, c),
    decreases a.len(),
{
    if a.len() > 0 && b.len() > 0 && c.len() > 0 {
        lemma_component_lt_facts(a[0], b[0], c[0]);
        lemma_component_lt_facts(a[0], c[0], b[0]);
        lemma_component_lt_facts(b[0], c[0], a[0]);
        lemma_component_lt_facts(c[0], a[0], b[0]);
        if a[0] == b[0] && b[0] == c[0] {
            lemma_key_lt_transitive(a.drop_first(), b.drop_first(), c.drop_first());
        }
    }
}

pub proof fn lemma_key_lt_total(a: Seq<Seq<char>>, b: Seq<Seq<char>>)
    requires
        a != b,
    ensures
        key_lt(a, b) || key_lt(b, a),
    decreases a.len(),
{
    if a.len() == 0 {
        assert(b.len() > 0) by {
            if b.len() == 0 {
                assert(a =~= b);
            }
        }
    } else if b.len() > 0 {
        lemma_component_lt_facts(a[0], b[0], a[0]);
        if a[0] == b[0] {
            if a.drop_first() == b.drop_first() {
                assert(a =~= seq![a[0]] + a.drop_first());
                assert(b =~= seq![b[0]] + b.drop_first());
            }
            lemma_key_lt_total(a.drop_first(), b.drop_first());
        }
    }
}

/// The order of paths is a strict total order on their components.
pub proof fn lemma_path_order(a: Seq<char>, b: Seq<char>, c: Seq<char>)
    ensures
        !path_lt(a, a),
        path_lt(a, b) && path_lt(b, c) ==> path_lt(a, c),
        !same_path(a, b) ==> path_lt(a, b) || path_lt(b, a),
        same_path(a, b) ==> !path_lt(a, b),
        same_path(a, a),
        same_path(a, b) ==> same_path(b, a),
        same_path(a, b) && same_path(b, c) ==> same_path(a, c),
{
    reveal(path_lt);
    reveal(same_path);
    lemma_key_lt_irreflexive(path_components(a));
    if path_lt(a, b) && path_lt(b, c) {
        lemma_key_lt_transitive(path_components(a), path_components(b), path_components(c));
    }
    if !same_path(a, b) {
        lemma_key_lt_total(path_components(a), path_components(b));
    }
}

fn chars_less(a: &[char], b: &[char]) -> (out: bool)
    ensures
        out == chars_lt(a@, b@),
    decreases a@.len(),
{
    if a.len() == 0 {
        return b.len() > 0;
    }
    if b.len() == 0 {
        return false;
    }
    if a[0] != b[0] {
        return a[0] < b[0];
    }
    let a_rest = vstd::slice::slice_subrange(a, 1, a.len());
    let b_rest = vstd::slice::slice_subrange(b, 1, b.len());
    proof {
        assert(a_rest@ =~= a@.drop_first());
        assert(b_rest@ =~= b@.drop_first());
    }
    chars_less(a_rest, b_rest)
}

fn chars_same(a: &[char], b: &[char]) -> (out: bool)
    ensures
        out == (a@ == b@),
{
    if a.len() != b.len() {
        return false;
    }
    let mut i: usize = 0;
    while i < a.len()
        invariant
            i <= a@.len(),
            a@.len() == b@.len(),
            forall|j: int| 0 <= j < i ==> a@[j] == b@[j],
        decreases a@.len() - i,
    {
        if a[i] != b[i] {
            return false;
        }
        i = i + 1;
    }
    proof {
        assert(a@ =~= b@);
    }
    true
}

fn rank_of(c: &[char]) -> (out: u8)
    ensures
        out as int == component_rank(c@),
{
    if c.len() == 1 && c[0] == '/' {
        proof {
            assert(c@ =~= seq!['/']);
        }
        1
    } else if c.len() == 1 && c[0] == '.' {
        proof {
            assert(c@ =~= seq!['.']);
        }
        2
    } else if c.len() == 2 && c[0] == '.' && c[1] == '.' {
        proof {
            assert(c@ =~= seq!['.', '.']);
        }
        3
    } else {
        4
    }
}

fn component_less(a: &[char], b: &[char]) -> (out: bool)
    ensures
        out == component_lt(a@, b@),
{
    let ra = rank_of(a);
    let rb = rank_of(b);
    ra < rb || (ra == rb && ra == 4 && chars_less(a, b))
}

fn key_less(a: &[Vec<char>], b: &[Vec<char>]) -> (out: bool)
    ensures
        out == key_lt(views(a@), views(b@)),
    decreases a@.len(),
{
    if a.len() == 0 {
        return b.len() > 0;
    }
    if b.len() == 0 {
        return false;
    }
    let a_rest = vstd::slice::slice_subrange(a, 1, a.len());
    let b_rest = vstd::slice::slice_subrange(b, 1, b.len());
    proof {
        assert(views(a_rest@) =~= views(a@).drop_first());
        assert(views(b_rest@) =~= views(b@).drop_first());
    }
    if !chars_same(a[0].as_slice(), b[0].as_slice()) {
        return component_less(a[0].as_slice(), b[0].as_slice());
    }
    key_less(a_rest, b_rest)
}

fn key_same(a: &[Vec<char>], b: &[Vec<char>]) -> (out: bool)
    ensures
        out == (views(a@) == views(b@)),
{
    if a.len() != b.len() {
        proof {
            assert(views(a@).len() != views(b@).len());
        }
        return false;
    }
    let mut i: usize = 0;
    while i < a.len()
        invariant
            i <= a@.len(),
            a@.len() == b@.len(),
            forall|j: int| 0 <= j < i ==> a@[j]@ == b@[j]@,
        decreases a@.len() - i,
    {
        if !chars_same(a[i].as_slice(), b[i].as_slice()) {
            proof {
                assert(views(a@)[i as int] != views(b@)[i as int]);
            }
            return false;
        }
        i = i + 1;
    }
    proof {
        assert(views(a@) =~= views(b@));
    }
    true
}

/// Each path sorts strictly before every later one.
pub open spec fn strictly_sorted(ps: Seq<Seq<char>>) -> bool {
    forall|i: int, j: int| 0 <= i < j < ps.len() ==> #[trigger] path_lt(ps[i], ps[j])
}

/// `found[i]` is the first of `found` to name its path.
pub open spec fn first_of_its_path(found: Seq<Seq<char>>, i: int) -> bool {
    forall|j: int| 0 <= j < i ==> !same_path(#[trigger] found[j], found[i])
}

pub open spec fn string_seq(v: Seq<String>) -> Seq<Seq<char>> {
    v.map_values(|s: String| s@)
}

/// The path of `found[p]` has an entry in `out`.
pub open spec fn listed(out: Seq<Seq<char>>, found: Seq<Seq<char>>, p: int) -> bool {
    exists|q: int| 0 <= q < out.len() && same_path(#[trigger] out[q], found[p])
}

/// Every path named in `found` has an entry in `out` with the same components.
pub open spec fn lists_every_path(out: Seq<Seq<char>>, found: Seq<Seq<char>>) -> bool {
    forall|p: int| 0 <= p < found.len() ==> #[trigger] listed(out, found, p)
}

/// `out[q]` is spelled as the first entry of `found` that names its path.
pub open spec fn spelled_first(out: Seq<Seq<char>>, found: Seq<Seq<char>>, q: int) -> bool {
    exists|p: int| 0 <= p < found.len() && #[trigger] found[p] == out[q] && first_of_its_path(found, p)
}

/// Every entry of `out` is spelled as the first entry of `found` that names its path.
pub open spec fn spelled_as_first(out: Seq<Seq<char>>, found: Seq<Seq<char>>) -> bool {
    forall|q: int| 0 <= q < out.len() ==> #[trigger] spelled_first(out, found, q)
}

/// `out` lists each path named in `found` once, in path order, spelled as its first
/// occurrence in `found`.
pub open spec fn sorted_unique(out: Seq<Seq<char>>, found: Seq<Seq<char>>) -> bool {
    &&& strictly_sorted(out)
    &&& lists_every_path(out, found)
    &&& spelled_as_first(out, found)
}

/// The paths found, sorted and without repeats: each path once, in path order, spelled as
/// it was first found.
pub fn sort_unique_paths(found: Vec<String>) -> (out: Vec<String>)
    ensures
        sorted_unique(string_seq(out@), string_seq(found@)),
{
    let ghost f = string_seq(found@);
    let mut out: Vec<String> = Vec::new();
    let mut keys: Vec<Vec<Vec<char>>> = Vec::new();
    proof {
        assert(string_seq(out@) =~= Seq::<Seq<char>>::empty());
        assert(sorted_unique(string_seq(out@), f.take(0)));
    }
    let mut i: usize = 0;
    while i < found.len()
        invariant
            i <= found@.len(),
            f == string_seq(found@),
            keys@.len() == out@.len(),
            forall|k: int| 0 <= k < out@.len() ==> views(#[trigger] keys@[k]@) == path_components(out@[k]@),
            sorted_unique(string_seq(out@), f.take(i as int)),
        decreases found@.len() - i,
    {
        let ghost o = string_seq(out@);
        let key = path_key(found[i].as_str());
        let mut j: usize = 0;
        while j < out.len() && key_less(keys[j].as_slice(), key.as_slice())
            invariant
                j <= out@.len(),
                keys@.len() == out@.len(),
                forall|k: int| 0 <= k < out@.len() ==> views(#[trigger] keys@[k]@) == path_components(out@[k]@),
                views(key@) == path_components(found@[i as int]@),
                i < found@.len(),
                f == string_seq(found@),
                forall|k: int| 0 <= k < j ==> path_lt(#[trigger] o[k], f[i as int]),
                o == string_seq(out@),
            decreases out@.len() - j,
        {
            proof {
                reveal(path_lt);
                assert(o[j as int] == out@[j as int]@);
            }
            j = j + 1;
        }
        if j < out.len() && key_same(keys[j].as_slice(), key.as_slice()) {
            proof {
                reveal(same_path);
                assert(o[j as int] == out@[j as int]@);
                lemma_duplicate_keeps_sorted_unique(o, f, i as int, j as int);
            }
        } else {
            proof {
                if j < o.len() {
                    reveal(path_lt);
                    reveal(same_path);
                    assert(o[j as int] == out@[j as int]@);
                    lemma_path_order(f[i as int], o[j as int], f[i as int]);
                }
            }
            let path = copy_string(&found[i]);
            out.insert(j, path);
            keys.insert(j, key);
            proof {
                assert(string_seq(out@) =~= o.insert(j as int, f[i as int]));
                lemma_insert_keeps_sorted_unique(o, string_seq(out@), f, i as int, j as int);
                assert forall|k: int| 0 <= k < out@.len() implies views(#[trigger] keys@[k]@)
                    == path_components(out@[k]@) by {}
            }
        }
        i = i + 1;
    }
    proof {
        assert(f.take(found@.len() as int) =~= f);
    }
    out
}

/// Two lists that increase strictly in a strict order and hold the same entries are the
/// same list.
pub proof fn lemma_sorted_by_unique<T>(a: Seq<T>, b: Seq<T>, lt: spec_fn(T, T) -> bool)
    requires
        forall|x: T| !#[trigger] lt(x, x),
        forall|x: T, y: T, z: T| #[trigger] lt(x, y) && #[trigger] lt(y, z) ==> lt(x, z),
        forall|i: int, j: int| 0 <= i < j < a.len() ==> #[trigger] lt(a[i], a[j]),
        forall|i: int, j: int| 0 <= i < j < b.len() ==> #[trigger] lt(b[i], b[j]),
        forall|x: T| a.contains(x) <==> b.contains(x),
    ensures
        a == b,
    decreases a.len(),
{
    if a.len() == 0 || b.len() == 0 {
        if a.len() > 0 {
            assert(a.contains(a[0]));
        }
        if b.len() > 0 {
            assert(b.contains(b[0]));
        }
        assert(a =~= b);
    } else {
        assert(a.contains(a[0]));
        assert(b.contains(b[0]));
        let k = choose|k: int| 0 <= k < b.len() && b[k] == a[0];
        let k2 = choose|k2: int| 0 <= k2 < a.len() && a[k2] == b[0];
        if a[0] != b[0] {
            assert(lt(b[0], b[k]));
            assert(lt(a[0], a[k2]));
            assert(lt(a[0], a[0]));
        }
        let a1 = a.drop_first();
        let b1 = b.drop_first();
        assert forall|x: T| a1.contains(x) <==> b1.contains(x) by {
            if a1.contains(x) {
                let i = choose|i: int| 0 <= i < a1.len() && a1[i] == x;
                assert(a[i + 1] == x);
                assert(lt(a[0], a[i + 1]));
                assert(a.contains(x));
                let j = choose|j: int| 0 <= j < b.len() && b[j] == x;
                assert(j != 0);
                assert(b1[j - 1] == x);
            }
            if b1.contains(x) {
                let i = choose|i: int| 0 <= i < b1.len() && b1[i] == x;
                assert(b[i + 1] == x);
                assert(lt(b[0], b[i + 1]));
                assert(b.contains(x));
                let j = choose|j: int| 0 <= j < a.len() && a[j] == x;
                assert(j != 0);
                assert(a1[j - 1] == x);
            }
        }
        assert forall|i: int, j: int| 0 <= i < j < a1.len() implies #[trigger] lt(a1[i], a1[j]) by {
            assert(lt(a[i + 1], a[j + 1]));
        }
        assert forall|i: int, j: int| 0 <= i < j < b1.len() implies #[trigger] lt(b1[i], b1[j]) by {
            assert(lt(b[i + 1], b[j + 1]));
        }
        lemma_sorted_by_unique(a1, b1, lt);
        assert forall|i: int| 0 <= i < a.len() implies a[i] == b[i] by {
            if i > 0 {
                assert(a[i] == a1[i - 1]);
                assert(b[i] == b1[i - 1]);
            }
        }
        assert(a =~= b);
    }
}

/// Two lists sorted strictly by path that hold the same entries are the same list.
pub proof fn lemma_strictly_sorted_unique(a: Seq<Seq<char>>, b: Seq<Seq<char>>)
    requires
        strictly_sorted(a),
        strictly_sorted(b),
        forall|x: Seq<char>| a.contains(x) <==> b.contains(x),
    ensures
        a == b,
{
    let lt = |x: Seq<char>, y: Seq<char>| path_lt(x, y);
    assert forall|x: Seq<char>| !#[trigger] lt(x, x) by {
        lemma_path_order(x, x, x);
    }
    assert forall|x: Seq<char>, y: Seq<char>, z: Seq<char>| #[trigger] lt(x, y) && #[trigger] lt(y, z) implies lt(x, z) by {
        lemma_path_order(x, y, z);
    }
    assert forall|i: int, j: int| 0 <= i < j < a.len() implies #[trigger] lt(a[i], a[j]) by {
        assert(path_lt(a[i], a[j]));
    }
    assert forall|i: int, j: int| 0 <= i < j < b.len() implies #[trigger] lt(b[i], b[j]) by {
        assert(path_lt(b[i], b[j]));
    }
    lemma_sorted_by_unique(a, b, lt);
}

/// The sorted list of the paths found is determined by what was found.
pub proof fn lemma_sorted_paths_determined(a: Seq<Seq<char>>, b: Seq<Seq<char>>, f: Seq<Seq<char>>)
    requires
        sorted_unique(a, f),
        sorted_unique(b, f),
    ensures
        a == b,
{
    assert forall|x: Seq<char>| a.contains(x) implies b.contains(x) by {
        lemma_listed_in_other(a, b, f, x);
    }
    assert forall|x: Seq<char>| b.contains(x) implies a.contains(x) by {
        lemma_listed_in_other(b, a, f, x);
    }
    lemma_strictly_sorted_unique(a, b);
}

/// An entry of one sorted list of the paths found is an entry of every other.
proof fn lemma_listed_in_other(a: Seq<Seq<char>>, b: Seq<Seq<char>>, f: Seq<Seq<char>>, x: Seq<char>)
    requires
        sorted_unique(a, f),
        sorted_unique(b, f),
        a.contains(x),
    ensures
        b.contains(x),
{
    let q = choose|q: int| 0 <= q < a.len() && a[q] == x;
    assert(spelled_first(a, f, q));
    let p = choose|p: int| 0 <= p < f.len() && #[trigger] f[p] == a[q] && first_of_its_path(f, p);
    assert(listed(b, f, p));
    let q2 = choose|q2: int| 0 <= q2 < b.len() && same_path(#[trigger] b[q2], f[p]);
    assert(spelled_first(b, f, q2));
    let p2 = choose|p2: int| 0 <= p2 < f.len() && #[trigger] f[p2] == b[q2] && first_of_its_path(f, p2);
    lemma_path_order(f[p2], f[p], f[p2]);
    if p < p2 {
        assert(!same_path(f[p], f[p2]));
    } else if p2 < p {
        assert(!same_path(f[p2], f[p]));
    }
    assert(b[q2] == x);
}

/// Finding the same paths twice over sorts to the same list as finding them once: where
/// a list of patterns given twice finds `f + f` and the list once finds `f`,
/// `FileMatcher::match_patterns` gives the same files for both.
pub proof fn lemma_sorted_paths_ignore_repeats(x: Seq<Seq<char>>, y: Seq<Seq<char>>, f: Seq<Seq<char>>)
    requires
        sorted_unique(x, f),
        sorted_unique(y, f + f),
    ensures
        x == y,
{
    let ff = f + f;
    assert forall|p: int| 0 <= p < f.len() implies #[trigger] listed(y, f, p) by {
        assert(listed(y, ff, p));
        assert(ff[p] == f[p]);
    }
    assert forall|q: int| 0 <= q < y.len() implies #[trigger] spelled_first(y, f, q) by {
        assert(spelled_first(y, ff, q));
        let p = choose|p: int| 0 <= p < ff.len() && #[trigger] ff[p] == y[q] && first_of_its_path(ff, p);
        if p >= f.len() {
            assert(ff[p - f.len()] == ff[p]);
            lemma_path_order(ff[p], ff[p], ff[p]);
            assert(same_path(ff[p - f.len()], ff[p]));
        }
        assert(f[p] == y[q]);
        assert forall|j: int| 0 <= j < p implies !same_path(#[trigger] f[j], f[p]) by {
            assert(ff[j] == f[j]);
        }
    }
    lemma_sorted_paths_determined(x, y, f);
}

/// The sorted list of paths depends only on which paths were found, not on the order in
/// which they were found: two lists of found paths with the same entries, where each path
/// is spelled one way, sort to the same list.
pub proof fn lemma_sorted_paths_ignore_order(
    a: Seq<Seq<char>>,
    b: Seq<Seq<char>>,
    f: Seq<Seq<char>>,
    g: Seq<Seq<char>>,
)
    requires
        sorted_unique(a, f),
        sorted_unique(b, g),
        forall|x: Seq<char>| f.contains(x) <==> g.contains(x),
        forall|i: int, j: int|
            0 <= i < f.len() && 0 <= j < f.len() && same_path(#[trigger] f[i], #[trigger] f[j]) ==> f[i] == f[j],
    ensures
        a == b,
{
    assert forall|x: Seq<char>| a.contains(x) <==> b.contains(x) by {
        if a.contains(x) {
            let q = choose|q: int| 0 <= q < a.len() && a[q] == x;
            assert(spelled_first(a, f, q));
            let p = choose|p: int| 0 <= p < f.len() && #[trigger] f[p] == a[q] && first_of_its_path(f, p);
            assert(f.contains(x));
            let p2 = choose|p2: int| 0 <= p2 < g.len() && g[p2] == x;
            assert(listed(b, g, p2));
            let q2 = choose|q2: int| 0 <= q2 < b.len() && same_path(#[trigger] b[q2], g[p2]);
            assert(spelled_first(b, g, q2));
            let p3 = choose|p3: int| 0 <= p3 < g.len() && #[trigger] g[p3] == b[q2] && first_of_its_path(g, p3);
            assert(g.contains(b[q2]));
            let p4 = choose|p4: int| 0 <= p4 < f.len() && f[p4] == b[q2];
            assert(same_path(f[p4], f[p]));
            assert(b[q2] == x);
        }
        if b.contains(x) {
            let q = choose|q: int| 0 <= q < b.len() && b[q] == x;
            assert(spelled_first(b, g, q));
            let p = choose|p: int| 0 <= p < g.len() && #[trigger] g[p] == b[q] && first_of_its_path(g, p);
            assert(g.contains(x));
            let p1 = choose|p1: int| 0 <= p1 < f.len() && f[p1] == x;
            assert(listed(a, f, p1));
            let q1 = choose|q1: int| 0 <= q1 < a.len() && same_path(#[trigger] a[q1], f[p1]);
            assert(spelled_first(a, f, q1));
            let p2 = choose|p2: int| 0 <= p2 < f.len() && #[trigger] f[p2] == a[q1] && first_of_its_path(f, p2);
            assert(same_path(f[p2], f[p1]));
            assert(a[q1] == x);
        }
    }
    lemma_strictly_sorted_unique(a, b);
}

/// Paths with the same components sort alike.
pub proof fn lemma_same_path_sorts_alike(a: Seq<char>, b: Seq<char>, c: Seq<char>)
    requires
        same_path(a, b),
    ensures
        path_lt(a, c) == path_lt(b, c),
        path_lt(c, a) == path_lt(c, b),
{
    reveal(path_lt);
    reveal(same_path);
}

proof fn lemma_duplicate_lists_every_path(o: Seq<Seq<char>>, f: Seq<Seq<char>>, i: int, j: int)
    requires
        0 <= i < f.len(),
        lists_every_path(o, f.take(i)),
        0 <= j < o.len(),
        same_path(o[j], f[i]),
    ensures
        lists_every_path(o, f.take(i + 1)),
{
    let fp = f.take(i);
    let fi = f.take(i + 1);
    assert forall|x: int| 0 <= x < fi.len() implies #[trigger] listed(o, fi, x) by {
        if x < i {
            assert(fi[x] == fp[x]);
            assert(listed(o, fp, x));
            let k = choose|k: int| 0 <= k < o.len() && same_path(#[trigger] o[k], fp[x]);
            assert(same_path(o[k], fi[x]));
        } else {
            assert(same_path(o[j], fi[x]));
        }
    }
}

proof fn lemma_duplicate_spelled_as_first(o: Seq<Seq<char>>, f: Seq<Seq<char>>, i: int)
    requires
        0 <= i < f.len(),
        spelled_as_first(o, f.take(i)),
    ensures
        spelled_as_first(o, f.take(i + 1)),
{
    let fp = f.take(i);
    let fi = f.take(i + 1);
    assert forall|k: int| 0 <= k < o.len() implies #[trigger] spelled_first(o, fi, k) by {
        assert(spelled_first(o, fp, k));
        let x = choose|x: int| 0 <= x < fp.len() && #[trigger] fp[x] == o[k] && first_of_its_path(fp, x);
        assert(fi[x] == o[k]);
        assert forall|y: int| 0 <= y < x implies !same_path(#[trigger] fi[y], fi[x]) by {
            assert(fi[y] == fp[y]);
        }
        assert(first_of_its_path(fi, x));
    }
}

proof fn lemma_duplicate_keeps_sorted_unique(o: Seq<Seq<char>>, f: Seq<Seq<char>>, i: int, j: int)
    requires
        0 <= i < f.len(),
        sorted_unique(o, f.take(i)),
        0 <= j < o.len(),
        same_path(o[j], f[i]),
    ensures
        sorted_unique(o, f.take(i + 1)),
{
    lemma_duplicate_lists_every_path(o, f, i, j);
    lemma_duplicate_spelled_as_first(o, f, i);
}

proof fn lemma_insert_keeps_sorted(o: Seq<Seq<char>>, o2: Seq<Seq<char>>, x0: Seq<char>, j: int)
    requires
        o2 == o.insert(j, x0),
        strictly_sorted(o),
        0 <= j <= o.len(),
        forall|k: int| 0 <= k < j ==> path_lt(#[trigger] o[k], x0),
        j < o.len() ==> path_lt(x0, o[j]),
    ensures
        strictly_sorted(o2),
{
    o.insert_ensures(j, x0);
    assert forall|a: int, b: int| 0 <= a < b < o2.len() implies #[trigger] path_lt(o2[a], o2[b]) by {
        if b < j {
            assert(path_lt(o[a], o[b]));
        } else if b == j {
            assert(path_lt(o[a], x0));
        } else {
            assert(o2[b] == o[b - 1]);
            if b - 1 > j {
                assert(path_lt(o[j], o[b - 1]));
                lemma_path_order(x0, o[j], o[b - 1]);
            }
            assert(path_lt(x0, o[b - 1]));
            if a < j {
                assert(path_lt(o[a], x0));
                lemma_path_order(o[a], x0, o[b - 1]);
            } else if a > j {
                assert(o2[a] == o[a - 1]);
                assert(path_lt(o[a - 1], o[b - 1]));
            }
        }
    }
}

proof fn lemma_insert_lists_every_path(o: Seq<Seq<char>>, o2: Seq<Seq<char>>, f: Seq<Seq<char>>, i: int, j: int)
    requires
        o2 == o.insert(j, f[i]),
        0 <= i < f.len(),
        lists_every_path(o, f.take(i)),
        0 <= j <= o.len(),
    ensures
        lists_every_path(o2, f.take(i + 1)),
{
    o.insert_ensures(j, f[i]);
    let fp = f.take(i);
    let fi = f.take(i + 1);
    assert forall|x: int| 0 <= x < fi.len() implies #[trigger] listed(o2, fi, x) by {
        if x < i {
            assert(fi[x] == fp[x]);
            assert(listed(o, fp, x));
            let k = choose|k: int| 0 <= k < o.len() && same_path(#[trigger] o[k], fp[x]);
            if k < j {
                assert(o2[k] == o[k]);
                assert(same_path(o2[k], fi[x]));
            } else {
                assert(o2[k + 1] == o[k]);
                assert(same_path(o2[k + 1], fi[x]));
            }
        } else {
            assert(o2[j] == fi[x]);
            lemma_path_order(fi[x], fi[x], fi[x]);
            assert(same_path(o2[j], fi[x]));
        }
    }
}

proof fn lemma_new_path_is_first(o: Seq<Seq<char>>, f: Seq<Seq<char>>, i: int, j: int)
    requires
        0 <= i < f.len(),
        strictly_sorted(o),
        lists_every_path(o, f.take(i)),
        0 <= j <= o.len(),
        forall|k: int| 0 <= k < j ==> path_lt(#[trigger] o[k], f[i]),
        j < o.len() ==> path_lt(f[i], o[j]),
    ensures
        first_of_its_path(f.take(i + 1), i),
{
    let fp = f.take(i);
    let fi = f.take(i + 1);
    let x0 = f[i];
    assert forall|y: int| 0 <= y < i implies !same_path(#[trigger] fi[y], fi[i]) by {
        assert(fi[y] == fp[y]);
        if same_path(fi[y], fi[i]) {
            assert(listed(o, fp, y));
            let k = choose|k: int| 0 <= k < o.len() && same_path(#[trigger] o[k], fp[y]);
            lemma_path_order(o[k], fp[y], x0);
            lemma_path_order(o[k], x0, o[k]);
            lemma_same_path_sorts_alike(o[k], x0, o[k]);
            lemma_same_path_sorts_alike(o[k], x0, x0);
            if k < j {
                assert(path_lt(o[k], x0));
            } else if k == j {
                assert(path_lt(x0, o[j]));
            } else {
                assert(path_lt(o[j], o[k]));
                lemma_path_order(x0, o[j], o[k]);
            }
        }
    }
}

proof fn lemma_insert_spelled_as_first(o: Seq<Seq<char>>, o2: Seq<Seq<char>>, f: Seq<Seq<char>>, i: int, j: int)
    requires
        o2 == o.insert(j, f[i]),
        0 <= i < f.len(),
        spelled_as_first(o, f.take(i)),
        first_of_its_path(f.take(i + 1), i),
        0 <= j <= o.len(),
    ensures
        spelled_as_first(o2, f.take(i + 1)),
{
    o.insert_ensures(j, f[i]);
    let fp = f.take(i);
    let fi = f.take(i + 1);
    assert forall|k: int| 0 <= k < o2.len() implies #[trigger] spelled_first(o2, fi, k) by {
        if k == j {
            assert(fi[i] == o2[k]);
        } else {
            let ko = if k < j {
                k
            } else {
                k - 1
            };
            assert(o2[k] == o[ko]);
            assert(spelled_first(o, fp, ko));
            let x = choose|x: int|
                0 <= x < fp.len() && #[trigger] fp[x] == o[ko] && first_of_its_path(fp, x);
            assert(fi[x] == o2[k]);
            assert forall|y: int| 0 <= y < x implies !same_path(#[trigger] fi[y], fi[x]) by {
                assert(fi[y] == fp[y]);
            }
        }
    }
}

proof fn lemma_insert_keeps_sorted_unique(o: Seq<Seq<char>>, o2: Seq<Seq<char>>, f: Seq<Seq<char>>, i: int, j: int)
    requires
        o2 == o.insert(j, f[i]),
        0 <= i < f.len(),
        sorted_unique(o, f.take(i)),
        0 <= j <= o.len(),
        forall|k: int| 0 <= k < j ==> path_lt(#[trigger] o[k], f[i]),
        j < o.len() ==> path_lt(f[i], o[j]),
    ensures
        sorted_unique(o2, f.take(i + 1)),
{
    lemma_insert_keeps_sorted(o, o2, f[i], j);
    lemma_insert_lists_every_path(o, o2, f, i, j);
    lemma_new_path_is_first(o, f, i, j);
    lemma_insert_spelled_as_first(o, o2, f, i, j);
}

fn copy_string(s: &String) -> (out: String)
    ensures
        out@ == s@,
{
    let cs = chars_of(s.as_str());
    crate::text::string_from(cs.as_slice())
}

/// `perm` shows that `out` is `input` sorted by path, files with the same path in their
/// input order: `out[k]` is `input[perm[k]]`.
pub open spec fn sort_witness(perm: Seq<int>, out: Seq<FileContent>, input: Seq<FileContent>) -> bool {
    &&& perm.len() == out.len() == input.len()
    &&& forall|k: int| 0 <= k < out.len() ==> 0 <= #[trigger] perm[k] < input.len() && out[k] == input[perm[k]]
    &&& forall|a: int, b: int| 0 <= a < b < out.len() ==> #[trigger] perm[a] != #[trigger] perm[b]
    &&& forall|a: int, b: int| 0 <= a < b < out.len() ==> !path_lt(#[trigger] out[b].path@, #[trigger] out[a].path@)
    &&& forall|a: int, b: int|
        0 <= a < b < out.len() && same_path(#[trigger] out[a].path@, #[trigger] out[b].path@) ==> perm[a] < perm[b]
}

/// `out` holds the files of `input` sorted by path; files with the same path keep their
/// order.
pub open spec fn stably_sorted_by_path(out: Seq<FileContent>, input: Seq<FileContent>) -> bool {
    exists|perm: Seq<int>| sort_witness(perm, out, input)
}

/// File `i` comes before file `j` in the order of a stable sort by path: its path sorts
/// first, or the paths are the same and it came first.
pub open spec fn file_before(files: Seq<FileContent>, i: int, j: int) -> bool {
    ||| path_lt(files[i].path@, files[j].path@)
    ||| same_path(files[i].path@, files[j].path@) && i < j
}

/// A sort lists the positions of the input in the stable order by path.
proof fn lemma_witness_increasing(perm: Seq<int>, out: Seq<FileContent>, input: Seq<FileContent>)
    requires
        sort_witness(perm, out, input),
    ensures
        forall|a: int, b: int| 0 <= a < b < perm.len() ==> #[trigger] file_before(input, perm[a], perm[b]),
{
    assert forall|a: int, b: int| 0 <= a < b < perm.len() implies #[trigger] file_before(input, perm[a], perm[b]) by {
        assert(out[a] == input[perm[a]]);
        assert(out[b] == input[perm[b]]);
        lemma_path_order(out[a].path@, out[b].path@, out[a].path@);
        assert(!path_lt(out[b].path@, out[a].path@));
    }
}

/// A sort lists every position of the input once.
proof fn lemma_witness_covers(perm: Seq<int>, out: Seq<FileContent>, input: Seq<FileContent>)
    requires
        sort_witness(perm, out, input),
    ensures
        forall|i: int| perm.contains(i) <==> 0 <= i < input.len(),
{
    let n = input.len() as int;
    assert(perm.no_duplicates()) by {
        assert forall|a: int, b: int| 0 <= a < perm.len() && 0 <= b < perm.len() && a != b implies perm[a] != perm[b] by {
            if a < b {
                assert(perm[a] != perm[b]);
            } else {
                assert(perm[b] != perm[a]);
            }
        }
    }
    perm.unique_seq_to_set();
    vstd::set_lib::lemma_int_range(0, n);
    let range = vstd::set_lib::set_int_range(0, n);
    assert(perm.to_set().subset_of(range)) by {
        assert forall|i: int| perm.to_set().contains(i) implies range.contains(i) by {
            assert(perm.contains(i));
            let k = choose|k: int| 0 <= k < perm.len() && perm[k] == i;
            assert(0 <= perm[k] < n);
        }
    }
    vstd::seq_lib::seq_to_set_is_finite(perm);
    vstd::set_lib::lemma_subset_equality(perm.to_set(), range);
    assert forall|i: int| perm.contains(i) <==> 0 <= i < input.len() by {
        assert(perm.contains(i) == perm.to_set().contains(i));
        assert(range.contains(i) == (0 <= i < n));
    }
}

/// There is one way to sort files by path that keeps files with the same path in their
/// order: the sorted list is determined by the files.
pub proof fn lemma_stable_sort_unique(s1: Seq<FileContent>, s2: Seq<FileContent>, input: Seq<FileContent>)
    requires
        stably_sorted_by_path(s1, input),
        stably_sorted_by_path(s2, input),
    ensures
        s1 == s2,
{
    let p1 = choose|p: Seq<int>| sort_witness(p, s1, input);
    let p2 = choose|p: Seq<int>| sort_witness(p, s2, input);
    lemma_witness_increasing(p1, s1, input);
    lemma_witness_increasing(p2, s2, input);
    lemma_witness_covers(p1, s1, input);
    lemma_witness_covers(p2, s2, input);
    let lt = |i: int, j: int| file_before(input, i, j);
    assert forall|i: int| !#[trigger] lt(i, i) by {
        lemma_path_order(input[i].path@, input[i].path@, input[i].path@);
    }
    assert forall|i: int, j: int, k: int| #[trigger] lt(i, j) && #[trigger] lt(j, k) implies lt(i, k) by {
        let (a, b, c) = (input[i].path@, input[j].path@, input[k].path@);
        lemma_path_order(a, b, c);
        if same_path(a, b) {
            lemma_same_path_sorts_alike(a, b, c);
        }
        if same_path(b, c) {
            lemma_same_path_sorts_alike(b, c, a);
        }
    }
    assert forall|a: int, b: int| 0 <= a < b < p1.len() implies #[trigger] lt(p1[a], p1[b]) by {
        assert(file_before(input, p1[a], p1[b]));
    }
    assert forall|a: int, b: int| 0 <= a < b < p2.len() implies #[trigger] lt(p2[a], p2[b]) by {
        assert(file_before(input, p2[a], p2[b]));
    }
    lemma_sorted_by_unique(p1, p2, lt);
    assert forall|k: int| 0 <= k < s1.len() implies s1[k] == s2[k] by {
        assert(s1[k] == input[p1[k]]);
        assert(s2[k] == input[p2[k]]);
    }
    assert(s1 =~= s2);
}

/// A sorted list holds exactly the files of its input, and where no two inputs share a
/// path it sorts strictly by path.
proof fn lemma_sorted_files(out: Seq<FileContent>, input: Seq<FileContent>)
    requires
        stably_sorted_by_path(out, input),
        forall|i: int, j: int|
            0 <= i < j < input.len() ==> !same_path(#[trigger] input[i].path@, #[trigger] input[j].path@),
    ensures
        forall|f: FileContent| out.contains(f) <==> input.contains(f),
        forall|a: int, b: int| 0 <= a < b < out.len() ==> path_lt(#[trigger] out[a].path@, #[trigger] out[b].path@),
{
    let perm = choose|p: Seq<int>| sort_witness(p, out, input);
    lemma_witness_covers(perm, out, input);
    assert forall|f: FileContent| out.contains(f) <==> input.contains(f) by {
        if out.contains(f) {
            let k = choose|k: int| 0 <= k < out.len() && out[k] == f;
            assert(out[k] == input[perm[k]]);
        }
        if input.contains(f) {
            let i = choose|i: int| 0 <= i < input.len() && input[i] == f;
            assert(perm.contains(i));
            let k = choose|k: int| 0 <= k < perm.len() && perm[k] == i;
            assert(out[k] == input[perm[k]]);
        }
    }
    assert forall|a: int, b: int| 0 <= a < b < out.len() implies path_lt(#[trigger] out[a].path@, #[trigger] out[b].path@) by {
        assert(out[a] == input[perm[a]]);
        assert(out[b] == input[perm[b]]);
        assert(perm[a] != perm[b]);
        if perm[a] < perm[b] {
            assert(!same_path(input[perm[a]].path@, input[perm[b]].path@));
        } else {
            assert(!same_path(input[perm[b]].path@, input[perm[a]].path@));
        }
        lemma_path_order(out[a].path@, out[b].path@, out[a].path@);
        lemma_path_order(out[b].path@, out[a].path@, out[b].path@);
    }
}

/// Files with different paths are compiled in the same order whatever order they were
/// found in: sorting two lists that hold the same files, no two with the same path, gives
/// the same list.
pub proof fn lemma_sorted_files_ignore_order(
    s1: Seq<FileContent>,
    s2: Seq<FileContent>,
    x: Seq<FileContent>,
    y: Seq<FileContent>,
)
    requires
        stably_sorted_by_path(s1, x),
        stably_sorted_by_path(s2, y),
        forall|f: FileContent| x.contains(f) <==> y.contains(f),
        forall|i: int, j: int| 0 <= i < j < x.len() ==> !same_path(#[trigger] x[i].path@, #[trigger] x[j].path@),
        forall|i: int, j: int| 0 <= i < j < y.len() ==> !same_path(#[trigger] y[i].path@, #[trigger] y[j].path@),
    ensures
        s1 == s2,
{
    lemma_sorted_files(s1, x);
    lemma_sorted_files(s2, y);
    let lt = |a: FileContent, b: FileContent| path_lt(a.path@, b.path@);
    assert forall|a: FileContent| !#[trigger] lt(a, a) by {
        lemma_path_order(a.path@, a.path@, a.path@);
    }
    assert forall|a: FileContent, b: FileContent, c: FileContent| #[trigger] lt(a, b) && #[trigger] lt(b, c) implies lt(a, c) by {
        lemma_path_order(a.path@, b.path@, c.path@);
    }
    assert forall|i: int, j: int| 0 <= i < j < s1.len() implies #[trigger] lt(s1[i], s1[j]) by {
        assert(path_lt(s1[i].path@, s1[j].path@));
    }
    assert forall|i: int, j: int| 0 <= i < j < s2.len() implies #[trigger] lt(s2[i], s2[j]) by {
        assert(path_lt(s2[i].path@, s2[j].path@));
    }
    lemma_sorted_by_unique(s1, s2, lt);
}

/// The state of the sort when the files from index `r` on have been placed.
pub open spec fn partial_witness(perm: Seq<int>, out: Seq<FileContent>, input: Seq<FileContent>, r: int) -> bool {
    &&& perm.len() == out.len() == input.len() - r
    &&& forall|k: int| 0 <= k < out.len() ==> r <= #[trigger] perm[k] < input.len() && out[k] == input[perm[k]]
    &&& forall|a: int, b: int| 0 <= a < b < out.len() ==> #[trigger] perm[a] != #[trigger] perm[b]
    &&& forall|a: int, b: int| 0 <= a < b < out.len() ==> !path_lt(#[trigger] out[b].path@, #[trigger] out[a].path@)
    &&& forall|a: int, b: int|
        0 <= a < b < out.len() && same_path(#[trigger] out[a].path@, #[trigger] out[b].path@) ==> perm[a] < perm[b]
}

proof fn lemma_place_file(
    perm: Seq<int>,
    out: Seq<FileContent>,
    perm2: Seq<int>,
    out2: Seq<FileContent>,
    input: Seq<FileContent>,
    r: int,
    j: int,
)
    requires
        0 <= r < input.len(),
        partial_witness(perm, out, input, r + 1),
        0 <= j <= out.len(),
        perm2 == perm.insert(j, r),
        out2 == out.insert(j, input[r]),
        forall|k: int| 0 <= k < j ==> path_lt(#[trigger] out[k].path@, input[r].path@),
        j < out.len() ==> !path_lt(out[j].path@, input[r].path@),
    ensures
        partial_witness(perm2, out2, input, r),
{
    perm.insert_ensures(j, r);
    out.insert_ensures(j, input[r]);
    let x = input[r].path@;
    assert forall|k: int| 0 <= k < out2.len() implies r <= #[trigger] perm2[k] < input.len()
        && out2[k] == input[perm2[k]] by {
        if k > j {
            assert(perm2[k] == perm[k - 1]);
            assert(out2[k] == out[k - 1]);
        }
    }
    assert forall|a: int, b: int| 0 <= a < b < out2.len() implies #[trigger] perm2[a] != #[trigger] perm2[b] by {
        if a < j && b > j {
            assert(perm2[b] == perm[b - 1]);
        } else if a > j {
            assert(perm2[a] == perm[a - 1]);
            assert(perm2[b] == perm[b - 1]);
        } else if a == j {
            assert(perm2[b] == perm[b - 1]);
        }
    }
    assert forall|a: int, b: int| 0 <= a < b < out2.len() implies !path_lt(
        #[trigger] out2[b].path@,
        #[trigger] out2[a].path@,
    ) by {
        if b < j {
        } else if b == j {
            lemma_path_order(out[a].path@, x, out[a].path@);
        } else {
            let y = out[b - 1].path@;
            assert(out2[b] == out[b - 1]);
            assert(!path_lt(y, x)) by {
                if path_lt(y, x) {
                    lemma_path_order(out[j].path@, x, out[j].path@);
                    if b - 1 > j {
                        assert(!path_lt(y, out[j].path@));
                    }
                    if same_path(out[j].path@, x) {
                        lemma_same_path_sorts_alike(out[j].path@, x, y);
                    } else {
                        lemma_path_order(y, x, out[j].path@);
                    }
                }
            }
            if a < j {
                lemma_path_order(y, x, out[a].path@);
                lemma_path_order(out[a].path@, x, y);
                if path_lt(y, out[a].path@) {
                    lemma_path_order(out[a].path@, x, out[a].path@);
                    lemma_path_order(y, out[a].path@, x);
                }
            } else if a > j {
                assert(out2[a] == out[a - 1]);
            }
        }
    }
    assert forall|a: int, b: int|
        0 <= a < b < out2.len() && same_path(#[trigger] out2[a].path@, #[trigger] out2[b].path@) implies perm2[a]
        < perm2[b] by {
        if b < j {
        } else if b == j {
            lemma_path_order(out[a].path@, x, out[a].path@);
            lemma_same_path_sorts_alike(out[a].path@, x, x);
            lemma_path_order(x, x, x);
        } else {
            assert(out2[b] == out[b - 1]);
            assert(perm2[b] == perm[b - 1]);
            if a > j {
                assert(out2[a] == out[a - 1]);
                assert(perm2[a] == perm[a - 1]);
            }
        }
    }
}

/// Joining two lists of files adds up their characters.
pub proof fn lemma_total_chars_concat(a: Seq<FileContent>, b: Seq<FileContent>)
    ensures
        total_chars(a + b) == total_chars(a) + total_chars(b),
    decreases b.len(),
{
    if b.len() > 0 {
        lemma_total_chars_concat(a, b.drop_last());
        assert((a + b).drop_last() =~= a + b.drop_last());
    } else {
        assert(a + b =~= a);
    }
}

/// Inserting a file adds its characters.
pub proof fn lemma_total_chars_insert(o: Seq<FileContent>, j: int, x: FileContent)
    requires
        0 <= j <= o.len(),
    ensures
        total_chars(o.insert(j, x)) == total_chars(o) + x.content@.len(),
{
    lemma_total_chars_concat(o.take(j), o.skip(j));
    assert(o.take(j) + o.skip(j) =~= o);
    lemma_total_chars_concat(o.take(j).push(x), o.skip(j));
    assert(o.take(j).push(x) + o.skip(j) =~= o.insert(j, x));
    assert(o.take(j).push(x).drop_last() =~= o.take(j));
}

/// The files sorted by path; files with the same path keep their order.
pub fn sort_by_path(files: Vec<FileContent>) -> (out: Vec<FileContent>)
    ensures
        stably_sorted_by_path(out@, files@),
        total_chars(out@) == total_chars(files@),
{
    let ghost input = files@;
    let mut rest = files;
    let mut out: Vec<FileContent> = Vec::new();
    let mut keys: Vec<Vec<Vec<char>>> = Vec::new();
    let ghost mut perm: Seq<int> = Seq::empty();
    proof {
        assert(input.take(input.len() as int) =~= input);
    }
    while rest.len() > 0
        invariant
            rest@ == input.take(rest@.len() as int),
            rest@.len() <= input.len(),
            keys@.len() == out@.len(),
            forall|k: int| 0 <= k < out@.len() ==> views(#[trigger] keys@[k]@) == path_components(out@[k].path@),
            partial_witness(perm, out@, input, rest@.len() as int),
            total_chars(out@) + total_chars(input.take(rest@.len() as int)) == total_chars(input),
        decreases rest@.len(),
    {
        let r = rest.len() - 1;
        let file = rest.pop().unwrap();
        proof {
            assert(file == input[r as int]);
            assert(rest@ =~= input.take(r as int));
        }
        let key = path_key(file.path.as_str());
        let mut j: usize = 0;
        while j < out.len() && key_less(keys[j].as_slice(), key.as_slice())
            invariant
                j <= out@.len(),
                keys@.len() == out@.len(),
                forall|k: int| 0 <= k < out@.len() ==> views(#[trigger] keys@[k]@) == path_components(out@[k].path@),
                views(key@) == path_components(file.path@),
                forall|k: int| 0 <= k < j ==> path_lt(#[trigger] out@[k].path@, file.path@),
            decreases out@.len() - j,
        {
            proof {
                reveal(path_lt);
            }
            j = j + 1;
        }
        proof {
            if j < out@.len() {
                reveal(path_lt);
            }
        }
        let ghost old_out = out@;
        let ghost old_perm = perm;
        out.insert(j, file);
        keys.insert(j, key);
        proof {
            perm = old_perm.insert(j as int, r as int);
            lemma_total_chars_insert(old_out, j as int, input[r as int]);
            assert(input.take(r + 1).drop_last() =~= input.take(r as int));
            assert(input.take(r + 1).last() == input[r as int]);
            lemma_place_file(old_perm, old_out, perm, out@, input, r as int, j as int);
            old_out.insert_ensures(j as int, input[r as int]);
            assert forall|k: int| 0 <= k < out@.len() implies views(#[trigger] keys@[k]@)
                == path_components(out@[k].path@) by {}
        }
    }
    proof {
        assert(sort_witness(perm, out@, input));
        assert(input.take(0) =~= Seq::<FileContent>::empty());
    }
    out
}

} // verus!
