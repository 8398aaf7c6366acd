//! Paths as sequences of name components, and the prefix algebra the
//! filesystem model is stated over.

use vstd::prelude::*;
use vstd::string::StringExecFns;
use vstd::string::StrSliceExecFns;

verus! {

/// The mathematical value of a path: its components, each a character
/// sequence.
pub type PathView = Seq<Seq<char>>;

/// `pre` is a (not necessarily strict) prefix of `p`.
pub open spec fn is_prefix_of(pre: PathView, p: PathView) -> bool {
    pre.len() <= p.len() && p.take(pre.len() as int) == pre
}

/// The path string the agent reports for a component sequence: the
/// components joined by `/`.
pub open spec fn join_of(k: PathView) -> Seq<char>
    decreases k.len(),
{
    if k.len() == 0 {
        Seq::empty()
    } else if k.len() == 1 {
        k.last()
    } else {
        join_of(k.drop_last()) + seq!['/'] + k.last()
    }
}

/// A prefix of a prefix is a prefix.
pub proof fn lemma_prefix_transitive(a: PathView, b: PathView, c: PathView)
    requires
        is_prefix_of(a, b),
        is_prefix_of(b, c),
    ensures
        is_prefix_of(a, c),
{
    assert(c.take(a.len() as int) =~= c.take(b.len() as int).take(a.len() as int));
}

/// Extending a prefix bound by one component adds exactly one new prefix.
pub proof fn lemma_prefix_step(k: PathView, p: PathView, l: int)
    requires
        0 <= l,
        l + 1 <= p.len(),
    ensures
        is_prefix_of(k, p.take(l + 1)) <==> (is_prefix_of(k, p.take(l)) || k == p.take(l + 1)),
{
    if is_prefix_of(k, p.take(l + 1)) {
        if k.len() <= l {
            assert(p.take(l + 1).take(k.len() as int) =~= p.take(k.len() as int));
            assert(p.take(l).take(k.len() as int) =~= p.take(k.len() as int));
        } else {
            assert(k.len() == l + 1);
            assert(p.take(l + 1).take(k.len() as int) =~= p.take(l + 1));
        }
    }
    if is_prefix_of(k, p.take(l)) {
        assert(p.take(l + 1).take(k.len() as int) =~= p.take(l).take(k.len() as int));
    }
    if k == p.take(l + 1) {
        assert(p.take(l + 1).take(k.len() as int) =~= p.take(l + 1));
    }
}

/// The parent of a nonempty path is a prefix of it.
pub proof fn lemma_parent_is_prefix(p: PathView)
    requires
        p.len() >= 1,
    ensures
        is_prefix_of(p.drop_last(), p),
{
    assert(p.take(p.len() - 1) =~= p.drop_last());
}

fn strings_eq(a: &String, b: &String) -> (r: bool)
    ensures
        r == (a@ == b@),
{
    a.eq(b)
}

/// Component-wise equality of two paths.
pub fn path_eq(a: &Vec<String>, b: &Vec<String>) -> (r: bool)
    ensures
        r == (a.deep_view() == b.deep_view()),
{
    if a.len() != b.len() {
        assert(a.deep_view().len() != b.deep_view().len());
        return false;
    }
    let mut i: usize = 0;
    while i < a.len()
        invariant
            i <= a.len(),
            a.len() == b.len(),
            forall|j: int| 0 <= j < i ==> a.deep_view()[j] == b.deep_view()[j],
        decreases a.len() - i,
    {
        if !strings_eq(&a[i], &b[i]) {
            assert(a.deep_view()[i as int] != b.deep_view()[i as int]);
            return false;
        }
        i += 1;
    }
    proof {
        assert(a.deep_view() =~= b.deep_view());
    }
    true
}

/// Whether `pre`'s components are an initial segment of `p`'s.
pub fn path_is_prefix(pre: &Vec<String>, p: &Vec<String>) -> (r: bool)
    ensures
        r == is_prefix_of(pre.deep_view(), p.deep_view()),
{
    if pre.len() > p.len() {
        return false;
    }
    let mut i: usize = 0;
    while i < pre.len()
        invariant
            i <= pre.len(),
            pre.len() <= p.len(),
            forall|j: int| 0 <= j < i ==> pre.deep_view()[j] == p.deep_view()[j],
        decreases pre.len() - i,
    {
        if !strings_eq(&pre[i], &p[i]) {
            assert(p.deep_view().take(pre.deep_view().len() as int)[i as int] != pre.deep_view()[i as int]);
            return false;
        }
        i += 1;
    }
    proof {
        assert(p.deep_view().take(pre.deep_view().len() as int) =~= pre.deep_view());
    }
    true
}

/// A fresh copy of a path's components.
pub fn clone_path(p: &Vec<String>) -> (r: Vec<String>)
    ensures
        r.deep_view() == p.deep_view(),
{
    let mut r: Vec<String> = Vec::new();
    let mut i: usize = 0;
    while i < p.len()
        invariant
            i <= p.len(),
            r.deep_view() =~= p.deep_view().take(i as int),
        decreases p.len() - i,
    {
        let ghost prev = r.deep_view();
        r.push(p[i].clone());
        proof {
            assert(r.deep_view() =~= prev.push(p.deep_view()[i as int]));
            assert(r.deep_view() =~= p.deep_view().take(i + 1));
        }
        i += 1;
    }
    proof {
        assert(p.deep_view().take(p.len() as int) =~= p.deep_view());
    }
    r
}

/// The path without its last component.
pub fn parent_of(p: &Vec<String>) -> (r: Vec<String>)
    requires
        p@.len() >= 1,
    ensures
        r.deep_view() == p.deep_view().drop_last(),
{
    let mut r: Vec<String> = Vec::new();
    let mut i: usize = 0;
    while i < p.len() - 1
        invariant
            p@.len() >= 1,
            i <= p.len() - 1,
            r.deep_view() =~= p.deep_view().take(i as int),
        decreases p.len() - 1 - i,
    {
        let ghost prev = r.deep_view();
        r.push(p[i].clone());
        proof {
            assert(r.deep_view() =~= prev.push(p.deep_view()[i as int]));
            assert(r.deep_view() =~= p.deep_view().take(i + 1));
        }
        i += 1;
    }
    proof {
        assert(p.deep_view().take(p.len() - 1) =~= p.deep_view().drop_last());
    }
    r
}

/// The components of `under` continued by those of `p` past its first
/// `skip` components; what a moved or copied entry is stored as.
pub fn reprefix(under: &Vec<String>, p: &Vec<String>, skip: usize) -> (r: Vec<String>)
    requires
        skip <= p@.len(),
    ensures
        r.deep_view() == under.deep_view() + p.deep_view().skip(skip as int),
{
    let mut r = clone_path(under);
    let mut i: usize = skip;
    while i < p.len()
        invariant
            skip <= i <= p.len(),
            r.deep_view() =~= under.deep_view() + p.deep_view().subrange(skip as int, i as int),
        decreases p.len() - i,
    {
        let ghost prev = r.deep_view();
        r.push(p[i].clone());
        proof {
            assert(r.deep_view() =~= prev.push(p.deep_view()[i as int]));
            assert(r.deep_view() =~= under.deep_view() + p.deep_view().subrange(skip as int, i + 1));
        }
        i += 1;
    }
    proof {
        assert(under.deep_view() + p.deep_view().subrange(skip as int, p@.len() as int) =~= under.deep_view()
            + p.deep_view().skip(skip as int));
        assert(r.deep_view() =~= under.deep_view() + p.deep_view().skip(skip as int));
    }
    r
}

/// The components joined by `/`.
pub fn join_path(p: &Vec<String>) -> (r: String)
    ensures
        r@ == join_of(p.deep_view()),
{
    let mut r = String::new();
    let mut i: usize = 0;
    while i < p.len()
        invariant
            i <= p.len(),
            r@ == join_of(p.deep_view().take(i as int)),
        decreases p.len() - i,
    {
        if i > 0 {
            r.append("/");
            proof {
                reveal_strlit("/");
                assert("/"@ =~= seq!['/']);
            }
        }
        r.append(p[i].as_str());
        proof {
            let dv = p.deep_view();
            assert(dv.take(i + 1).drop_last() =~= dv.take(i as int));
            assert(dv.take(i + 1).last() == dv[i as int]);
        }
        i += 1;
    }
    proof {
        assert(p.deep_view().take(p.len() as int) =~= p.deep_view());
    }
    r
}

} // verus!
