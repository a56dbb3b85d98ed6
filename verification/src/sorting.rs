use vstd::prelude::*;
use crate::model::{TypstFile, TypstPackageFile};
use crate::text::{
    chars_eq, chars_lt, chars_of, lemma_seq_lt_irreflexive, lemma_seq_lt_total,
    lemma_seq_lt_transitive, seq_lt,
};

verus! {

broadcast use vstd::string::group_string_axioms;

/// `x` put after every element of `s` it does not sort before (scanning from the end),
/// so that among equal keys the earlier element stays first.
pub open spec fn insert_stable<A>(s: Seq<A>, x: A, lt: spec_fn(A, A) -> bool) -> Seq<A>
    decreases s.len(),
{
    if s.len() == 0 {
        seq![x]
    } else if lt(x, s.last()) {
        insert_stable(s.drop_last(), x, lt).push(s.last())
    } else {
        s.push(x)
    }
}

/// `s` sorted by `lt`, keeping the order of elements with equal keys (a stable sort).
pub open spec fn stable_sorted<A>(s: Seq<A>, lt: spec_fn(A, A) -> bool) -> Seq<A>
    decreases s.len(),
{
    if s.len() == 0 {
        s
    } else {
        insert_stable(stable_sorted(s.drop_last(), lt), s.last(), lt)
    }
}

/// No element sorts before one that comes earlier.
pub open spec fn is_sorted_by<A>(s: Seq<A>, lt: spec_fn(A, A) -> bool) -> bool {
    forall|i: int, j: int| 0 <= i < j < s.len() ==> !lt(s[j], s[i])
}

/// "Does not sort before" is transitive.
pub open spec fn le_transitive<A>(lt: spec_fn(A, A) -> bool) -> bool {
    forall|a: A, b: A, c: A| #![trigger lt(b, a), lt(c, b)] !lt(b, a) && !lt(c, b) ==> !lt(c, a)
}

/// No two elements each sort before the other.
pub open spec fn lt_asymmetric<A>(lt: spec_fn(A, A) -> bool) -> bool {
    forall|a: A, b: A| #![trigger lt(a, b), lt(b, a)] lt(a, b) ==> !lt(b, a)
}

/// Files ordered by path.
pub open spec fn path_lt() -> spec_fn(TypstFile, TypstFile) -> bool {
    |a: TypstFile, b: TypstFile| seq_lt(a.path@, b.path@)
}

/// Package files ordered by (namespace, name, version, path).
pub open spec fn package_lt() -> spec_fn(TypstPackageFile, TypstPackageFile) -> bool {
    |a: TypstPackageFile, b: TypstPackageFile|
        seq_lt(a.namespace@, b.namespace@) || (a.namespace@ == b.namespace@ && (seq_lt(
            a.name@,
            b.name@,
        ) || (a.name@ == b.name@ && (seq_lt(a.version@, b.version@) || (a.version@
            == b.version@ && seq_lt(a.path@, b.path@))))))
}

pub proof fn lemma_insert_at<A>(s: Seq<A>, x: A, lt: spec_fn(A, A) -> bool, j: int)
    requires
        0 <= j <= s.len(),
        forall|k: int| j <= k < s.len() ==> lt(x, #[trigger] s[k]),
        j == 0 || !lt(x, s[j - 1]),
    ensures
        insert_stable(s, x, lt) == s.take(j).push(x) + s.skip(j),
    decreases s.len(),
{
    if s.len() == 0 {
        assert(s.take(j).push(x) + s.skip(j) =~= seq![x]);
    } else if j == s.len() {
        assert(s.take(j) =~= s);
        assert(s.take(j).push(x) + s.skip(j) =~= s.push(x));
    } else {
        assert(lt(x, s[s.len() - 1]));
        assert forall|k: int| j <= k < s.drop_last().len() implies lt(x, #[trigger] s.drop_last()[k]) by {
            assert(s.drop_last()[k] == s[k]);
        }
        if j > 0 {
            assert(s.drop_last()[j - 1] == s[j - 1]);
        }
        lemma_insert_at(s.drop_last(), x, lt, j);
        assert(s.drop_last().take(j) =~= s.take(j));
        assert((s.drop_last().take(j).push(x) + s.drop_last().skip(j)).push(s.last()) =~= s.take(
            j,
        ).push(x) + s.skip(j));
    }
}

pub proof fn lemma_insert_sorted<A>(s: Seq<A>, x: A, lt: spec_fn(A, A) -> bool)
    requires
        is_sorted_by(s, lt),
        le_transitive(lt),
        lt_asymmetric(lt),
    ensures
        is_sorted_by(insert_stable(s, x, lt), lt),
        insert_stable(s, x, lt).to_multiset() == s.to_multiset().insert(x),
    decreases s.len(),
{
    broadcast use vstd::multiset::group_multiset_axioms, vstd::seq_lib::group_to_multiset_ensures;
    if s.len() == 0 {
        assert(s.push(x) =~= seq![x]);
    } else if lt(x, s.last()) {
        let p = s.drop_last();
        assert forall|i: int, j: int| 0 <= i < j < p.len() implies !lt(p[j], p[i]) by {
            assert(p[i] == s[i] && p[j] == s[j]);
        }
        lemma_insert_sorted(p, x, lt);
        let q = insert_stable(p, x, lt);
        let r = q.push(s.last());
        // every element of q sorts no later than the last element of s
        assert forall|i: int| 0 <= i < q.len() implies !lt(s.last(), #[trigger] q[i]) by {
            assert(q.to_multiset().count(q[i]) > 0) by {
                assert(q.contains(q[i]));
            }
            assert(q.to_multiset() == p.to_multiset().insert(x));
            if q[i] == x {
                assert(lt(x, s.last()));
            } else {
                assert(p.to_multiset().count(q[i]) > 0);
                assert(p.contains(q[i]));
                let k = choose|k: int| 0 <= k < p.len() && p[k] == q[i];
                assert(s[k] == p[k]);
                assert(!lt(s[s.len() - 1], s[k]));
            }
        }
        assert forall|i: int, j: int| 0 <= i < j < r.len() implies !lt(r[j], r[i]) by {
            if j == r.len() - 1 {
                assert(r[j] == s.last());
                assert(r[i] == q[i]);
            } else {
                assert(r[i] == q[i] && r[j] == q[j]);
            }
        }
        assert(s =~= p.push(s.last()));
        assert(r.to_multiset() =~= q.to_multiset().insert(s.last()));
        assert(s.to_multiset() =~= p.to_multiset().insert(s.last()));
        assert(r.to_multiset() =~= s.to_multiset().insert(x));
    } else {
        let r = s.push(x);
        assert forall|i: int, j: int| 0 <= i < j < r.len() implies !lt(r[j], r[i]) by {
            if j == r.len() - 1 {
                assert(r[i] == s[i]);
                if i < s.len() - 1 {
                    assert(!lt(s[s.len() - 1], s[i]));
                }
            } else {
                assert(r[i] == s[i] && r[j] == s[j]);
            }
        }
    }
}

/// A stable sort gives a sorted permutation of its input.
pub proof fn lemma_stable_sorted<A>(s: Seq<A>, lt: spec_fn(A, A) -> bool)
    requires
        le_transitive(lt),
        lt_asymmetric(lt),
    ensures
        is_sorted_by(stable_sorted(s, lt), lt),
        stable_sorted(s, lt).to_multiset() == s.to_multiset(),
    decreases s.len(),
{
    broadcast use vstd::seq_lib::group_to_multiset_ensures;
    if s.len() > 0 {
        lemma_stable_sorted(s.drop_last(), lt);
        lemma_insert_sorted(stable_sorted(s.drop_last(), lt), s.last(), lt);
        assert(s =~= s.drop_last().push(s.last()));
    }
}

pub proof fn lemma_seq_le_transitive(a: Seq<char>, b: Seq<char>, c: Seq<char>)
    requires
        !seq_lt(b, a),
        !seq_lt(c, b),
    ensures
        !seq_lt(c, a),
{
    lemma_seq_lt_total(a, b);
    lemma_seq_lt_total(b, c);
    lemma_seq_lt_total(a, c);
    if seq_lt(c, a) {
        if a != b && b != c {
            lemma_seq_lt_transitive(a, b, c);
        }
    }
}

pub proof fn lemma_path_order()
    ensures
        le_transitive(path_lt()),
        lt_asymmetric(path_lt()),
{
    assert forall|a: TypstFile, b: TypstFile|
        #![trigger (path_lt())(a, b), (path_lt())(b, a)]
        (path_lt())(a, b) implies !(path_lt())(b, a) by {
        lemma_seq_lt_total(a.path@, b.path@);
    }
    assert forall|a: TypstFile, b: TypstFile, c: TypstFile|
        #![trigger (path_lt())(b, a), (path_lt())(c, b)]
        !(path_lt())(b, a) && !(path_lt())(c, b) implies !(path_lt())(c, a) by {
        lemma_seq_le_transitive(a.path@, b.path@, c.path@);
    }
}

pub proof fn lemma_package_order()
    ensures
        le_transitive(package_lt()),
        lt_asymmetric(package_lt()),
{
    assert forall|a: TypstPackageFile, b: TypstPackageFile|
        #![trigger (package_lt())(a, b), (package_lt())(b, a)]
        (package_lt())(a, b) implies !(package_lt())(b, a) by {
        lemma_seq_lt_total(a.namespace@, b.namespace@);
        lemma_seq_lt_total(a.name@, b.name@);
        lemma_seq_lt_total(a.version@, b.version@);
        lemma_seq_lt_total(a.path@, b.path@);
    }
    assert forall|a: TypstPackageFile, b: TypstPackageFile, c: TypstPackageFile|
        #![trigger (package_lt())(b, a), (package_lt())(c, b)]
        !(package_lt())(b, a) && !(package_lt())(c, b) implies !(package_lt())(c, a) by {
        lemma_seq_lt_total(a.namespace@, b.namespace@);
        lemma_seq_lt_total(b.namespace@, c.namespace@);
        lemma_seq_lt_total(a.namespace@, c.namespace@);
        lemma_seq_lt_total(a.name@, b.name@);
        lemma_seq_lt_total(b.name@, c.name@);
        lemma_seq_lt_total(a.name@, c.name@);
        lemma_seq_lt_total(a.version@, b.version@);
        lemma_seq_lt_total(b.version@, c.version@);
        lemma_seq_lt_total(a.version@, c.version@);
        if !seq_lt(b.path@, a.path@) && !seq_lt(c.path@, b.path@) {
            lemma_seq_le_transitive(a.path@, b.path@, c.path@);
        }
        if seq_lt(a.namespace@, b.namespace@) && seq_lt(b.namespace@, c.namespace@) {
            lemma_seq_lt_transitive(a.namespace@, b.namespace@, c.namespace@);
        }
        if seq_lt(a.name@, b.name@) && seq_lt(b.name@, c.name@) {
            lemma_seq_lt_transitive(a.name@, b.name@, c.name@);
        }
        if seq_lt(a.version@, b.version@) && seq_lt(b.version@, c.version@) {
            lemma_seq_lt_transitive(a.version@, b.version@, c.version@);
        }
        lemma_seq_lt_irreflexive(a.namespace@);
        lemma_seq_lt_irreflexive(a.name@);
        lemma_seq_lt_irreflexive(a.version@);
    }
}

fn path_less(xc: &Vec<char>, y: &TypstFile) -> (r: bool)
    ensures
        r == seq_lt(xc@, y.path@),
{
    let yc = chars_of(y.path.as_str());
    chars_lt(xc, &yc)
}

/// Sorts files by path, keeping the order of files with equal paths.
pub fn sort_files_by_path(files: Vec<TypstFile>) -> (r: Vec<TypstFile>)
    ensures
        r@ == stable_sorted(files@, path_lt()),
        is_sorted_by(r@, path_lt()),
        r@.to_multiset() == files@.to_multiset(),
{
    proof {
        lemma_path_order();
        lemma_stable_sorted(files@, path_lt());
    }
    let mut out: Vec<TypstFile> = Vec::new();
    let mut i: usize = 0;
    assert(files@.take(0) =~= Seq::<TypstFile>::empty());
    while i < files.len()
        invariant
            i <= files.len(),
            out@ == stable_sorted(files@.take(i as int), path_lt()),
        decreases files.len() - i,
    {
        let x = files[i].duplicate();
        let xc = chars_of(x.path.as_str());
        let mut j = out.len();
        while j > 0 && path_less(&xc, &out[j - 1])
            invariant
                j <= out.len(),
                xc@ == x.path@,
                forall|k: int| j <= k < out.len() ==> (path_lt())(x, #[trigger] out@[k]),
            decreases j,
        {
            j -= 1;
        }
        proof {
            lemma_insert_at(out@, x, path_lt(), j as int);
        }
        let ghost before = out@;
        out.insert(j, x);
        assert(out@ =~= before.take(j as int).push(x) + before.skip(j as int));
        assert(files@.take(i + 1).drop_last() =~= files@.take(i as int));
        assert(files@.take(i + 1).last() == files@[i as int]);
        i += 1;
    }
    assert(files@.take(files.len() as int) =~= files@);
    out
}

fn package_less(a: &TypstPackageFile, b: &TypstPackageFile) -> (r: bool)
    ensures
        r == (package_lt())(*a, *b),
{
    let an = chars_of(a.namespace.as_str());
    let bn = chars_of(b.namespace.as_str());
    if chars_lt(&an, &bn) {
        return true;
    }
    if !chars_eq(&an, &bn) {
        return false;
    }
    let am = chars_of(a.name.as_str());
    let bm = chars_of(b.name.as_str());
    if chars_lt(&am, &bm) {
        return true;
    }
    if !chars_eq(&am, &bm) {
        return false;
    }
    let av = chars_of(a.version.as_str());
    let bv = chars_of(b.version.as_str());
    if chars_lt(&av, &bv) {
        return true;
    }
    if !chars_eq(&av, &bv) {
        return false;
    }
    let ap = chars_of(a.path.as_str());
    let bp = chars_of(b.path.as_str());
    chars_lt(&ap, &bp)
}

/// Sorts package files by (namespace, name, version, path), keeping the order of equal keys.
pub fn sort_package_files(files: Vec<TypstPackageFile>) -> (r: Vec<TypstPackageFile>)
    ensures
        r@ == stable_sorted(files@, package_lt()),
        is_sorted_by(r@, package_lt()),
        r@.to_multiset() == files@.to_multiset(),
{
    proof {
        lemma_package_order();
        lemma_stable_sorted(files@, package_lt());
    }
    let ghost all = files@;
    let mut out: Vec<TypstPackageFile> = Vec::new();
    assert(all.take(0) =~= Seq::<TypstPackageFile>::empty());
    for x in it: files
        invariant
            it.seq() == all,
            out@ == stable_sorted(all.take(it.index() as int), package_lt()),
    {
        let ghost i = it.index() as int;
        assert(x == all[i]);
        let mut j = out.len();
        while j > 0 && package_less(&x, &out[j - 1])
            invariant
                j <= out.len(),
                forall|k: int| j <= k < out.len() ==> (package_lt())(x, #[trigger] out@[k]),
            decreases j,
        {
            j -= 1;
        }
        proof {
            lemma_insert_at(out@, x, package_lt(), j as int);
        }
        let ghost before = out@;
        out.insert(j, x);
        assert(out@ =~= before.take(j as int).push(x) + before.skip(j as int));
        assert(all.take(i + 1).drop_last() =~= all.take(i));
        assert(all.take(i + 1).last() == all[i]);
    }
    assert(all.take(all.len() as int) =~= all);
    out
}

} // verus!
