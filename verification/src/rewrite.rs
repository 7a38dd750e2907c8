//! Rewriting a pattern tree into a pattern over bytes.

use vstd::prelude::*;
use crate::captures::CaptureSet;
use crate::descriptor::Capture;
use crate::descriptor::CaptureView;
use crate::descriptor::DescriptorView;
use crate::descriptor::PatternDescriptor;
use crate::grammar::pattern_of;
use crate::parser::parse_str_pattern;
use crate::tree::BytePattern;
use crate::tree::BytePatternView;
use crate::tree::CompileError;
use crate::tree::ErrorKind;
use crate::tree::PatternTree;
use crate::tree::TreeView;
use crate::vecs::reversed;

verus! {

/// Whether a binding was written with any modifier.
pub open spec fn is_complex(by_ref: bool, mutable: bool, subpattern: bool) -> bool {
    by_ref || mutable || subpattern
}

/// What a tree is rewritten to, or the first error in it, read from left
/// to right.
///
/// A literal becomes what its pattern string compiles to, a plain binding
/// stays a binding, an or-group is rewritten branch by branch, and any
/// other pattern stays as it is.
pub open spec fn rewrite_spec<T, S>(tree: TreeView<T, S>) -> Result<
    BytePatternView<T, S>,
    CompileError<S>,
>
    decreases tree, 0nat,
{
    match tree {
        TreeView::Literal { text, span } => match pattern_of(text) {
            Ok(DescriptorView::Single(bytes)) => Ok(BytePatternView::Exact(bytes)),
            Ok(DescriptorView::Triple(prefix, capture, suffix)) => Ok(
                BytePatternView::Split { prefix, capture, suffix, span },
            ),
            Err(e) => Err(CompileError { kind: ErrorKind::Pattern(e), span }),
        },
        TreeView::Binding { name, by_ref, mutable, subpattern, span } => {
            if is_complex(by_ref, mutable, subpattern) {
                Err(CompileError { kind: ErrorKind::ComplexPattern, span })
            } else {
                Ok(BytePatternView::Bind { name, span })
            }
        },
        TreeView::Or { leading_separator, branches } => match rewrite_all(
            branches,
            branches.len(),
        ) {
            Ok(rewritten) => Ok(BytePatternView::Or { leading_separator, branches: rewritten }),
            Err(e) => Err(e),
        },
        TreeView::Opaque(other) => Ok(BytePatternView::Opaque(other)),
    }
}

/// The first `k` branches rewritten in order, or the first error among
/// them.
pub open spec fn rewrite_all<T, S>(branches: Seq<TreeView<T, S>>, k: nat) -> Result<
    Seq<BytePatternView<T, S>>,
    CompileError<S>,
>
    decreases branches, k,
{
    if k == 0 || k > branches.len() {
        Ok(Seq::empty())
    } else {
        match rewrite_all(branches, (k - 1) as nat) {
            Err(e) => Err(e),
            Ok(done) => match rewrite_spec(branches[k - 1]) {
                Err(e) => Err(e),
                Ok(branch) => Ok(done.push(branch)),
            },
        }
    }
}

/// The names that rewriting a tree adds to the capture set: those of its
/// named captures and plain bindings, up to the first error if there is
/// one. The names of the branches of an or-group are united.
pub open spec fn captured_names<T, S>(tree: TreeView<T, S>) -> Set<Seq<char>>
    decreases tree, 0nat,
{
    match tree {
        TreeView::Literal { text, span } => match pattern_of(text) {
            Ok(DescriptorView::Triple(_, CaptureView::Named(name), _)) => set![name],
            _ => Set::empty(),
        },
        TreeView::Binding { name, by_ref, mutable, subpattern, span } => {
            if is_complex(by_ref, mutable, subpattern) {
                Set::empty()
            } else {
                set![name]
            }
        },
        TreeView::Or { leading_separator, branches } => names_upto(branches, branches.len()),
        TreeView::Opaque(_) => Set::empty(),
    }
}

/// The names that the first `k` branches add, the branches behind a
/// failing one not counted.
pub open spec fn names_upto<T, S>(branches: Seq<TreeView<T, S>>, k: nat) -> Set<Seq<char>>
    decreases branches, k,
{
    if k == 0 || k > branches.len() {
        Set::empty()
    } else if rewrite_all(branches, (k - 1) as nat) is Err {
        names_upto(branches, (k - 1) as nat)
    } else {
        names_upto(branches, (k - 1) as nat).union(captured_names(branches[k - 1]))
    }
}

/// The model of what the rewriter returns.
pub open spec fn rewritten_view<T, S>(r: Result<BytePattern<T, S>, CompileError<S>>) -> Result<
    BytePatternView<T, S>,
    CompileError<S>,
> {
    match r {
        Ok(pattern) => Ok(pattern@),
        Err(e) => Err(e),
    }
}

/// Once a branch has failed, the branches behind it change nothing.
pub proof fn lemma_error_is_final<T, S>(branches: Seq<TreeView<T, S>>, k: nat, m: nat)
    requires
        k <= m <= branches.len(),
        rewrite_all(branches, k) is Err,
    ensures
        rewrite_all(branches, m) == rewrite_all(branches, k),
        names_upto(branches, m) == names_upto(branches, k),
    decreases m,
{
    if m > k {
        lemma_error_is_final(branches, k, (m - 1) as nat);
    }
}

/// Rewrites a pattern tree and adds the names it captures to `set`.
///
/// Literals are compiled as pattern strings; a named capture adds its name.
/// A plain binding adds its name and stays; one with modifiers is an
/// error. The branches of an or-group are rewritten in order against the
/// same set, so their names are united. Other patterns pass through.
pub fn convert_pat<T, S>(pat: PatternTree<T, S>, set: &mut CaptureSet) -> (r: Result<
    BytePattern<T, S>,
    CompileError<S>,
>)
    requires
        old(set).wf(),
    ensures
        final(set).wf(),
        final(set)@ == old(set)@.union(captured_names(pat@)),
        rewritten_view(r) == rewrite_spec(pat@),
    decreases pat,
{
    match pat {
        PatternTree::Literal { text, span } => {
            match parse_str_pattern(text.as_str()) {
                Ok(PatternDescriptor::Single(bytes)) => {
                    assert(set@.union(Set::<Seq<char>>::empty()) =~= set@);
                    Ok(BytePattern::Exact(bytes))
                },
                Ok(PatternDescriptor::Triple(prefix, capture, suffix)) => {
                    match &capture {
                        Capture::Named(name) => {
                            assert(set@.union(set![name@]) =~= set@.insert(name@));
                            set.insert(name.clone());
                        },
                        Capture::Wild => {
                            assert(set@.union(Set::<Seq<char>>::empty()) =~= set@);
                        },
                    }
                    Ok(BytePattern::Split { prefix, capture, suffix, span })
                },
                Err(e) => {
                    assert(set@.union(Set::<Seq<char>>::empty()) =~= set@);
                    Err(CompileError { kind: ErrorKind::Pattern(e), span })
                },
            }
        },
        PatternTree::Binding { name, by_ref, mutable, subpattern, span } => {
            if by_ref || mutable || subpattern {
                assert(set@.union(Set::<Seq<char>>::empty()) =~= set@);
                Err(CompileError { kind: ErrorKind::ComplexPattern, span })
            } else {
                assert(set@.union(set![name@]) =~= set@.insert(name@));
                set.insert(name.clone());
                Ok(BytePattern::Bind { name, span })
            }
        },
        PatternTree::Or { leading_separator, branches } => {
            let ghost views = pat@->Or_branches;
            let ghost n = branches@.len();
            let mut stack = reversed(branches);
            let mut out: Vec<BytePattern<T, S>> = Vec::new();
            assert(set@.union(Set::<Seq<char>>::empty()) =~= set@);
            while stack.len() > 0
                invariant
                    pat == (PatternTree::Or { leading_separator, branches }),
                    views == pat@->Or_branches,
                    n == branches@.len(),
                    n == views.len(),
                    stack@.len() + out@.len() == n,
                    forall|j: int| 0 <= j < stack@.len() ==> stack@[j] == branches@[n - 1 - j],
                    set.wf(),
                    set@ == old(set)@.union(names_upto(views, out@.len() as nat)),
                    rewrite_all(views, out@.len() as nat) is Ok,
                    rewrite_all(views, out@.len() as nat)->Ok_0.len() == out@.len(),
                    forall|j: int|
                        0 <= j < out@.len() ==> out@[j]@ == rewrite_all(
                            views,
                            out@.len() as nat,
                        )->Ok_0[j],
                decreases stack@.len(),
            {
                let ghost i = out@.len();
                let ghost before = set@;
                let ghost done = rewrite_all(views, i as nat)->Ok_0;
                let branch = stack.pop().unwrap();
                proof {
                    assert(branch == branches@[i as int]);
                    assert(branch@ == views[i as int]);
                    vstd::std_specs::vec::axiom_vec_index_decreases(branches, i as int);
                    assert(decreases_to!(pat => pat->Or_branches));
                }
                match convert_pat(branch, set) {
                    Ok(rewritten) => {
                        proof {
                            assert(set@ =~= old(set)@.union(names_upto(views, (i + 1) as nat)));
                            assert(rewrite_all(views, (i + 1) as nat) == Ok::<
                                Seq<BytePatternView<T, S>>,
                                CompileError<S>,
                            >(done.push(rewritten@)));
                        }
                        out.push(rewritten);
                    },
                    Err(e) => {
                        proof {
                            assert(set@ =~= old(set)@.union(names_upto(views, (i + 1) as nat)));
                            assert(rewrite_all(views, (i + 1) as nat) is Err);
                            lemma_error_is_final(views, (i + 1) as nat, n);
                        }
                        return Err(e);
                    },
                }
            }
            let ghost built = out@;
            let r = BytePattern::Or { leading_separator, branches: out };
            assert(r@->Or_branches =~= rewrite_all(views, n)->Ok_0);
            Ok(r)
        },
        PatternTree::Opaque(other) => {
            assert(set@.union(Set::<Seq<char>>::empty()) =~= set@);
            Ok(BytePattern::Opaque(other))
        },
    }
}

/// How the first `k` branches of an or-group fare together: they succeed
/// iff each of them does, and then they are rewritten one by one, in
/// order, and their names are united.
pub proof fn lemma_branches_one_by_one<T, S>(branches: Seq<TreeView<T, S>>, k: nat)
    requires
        k <= branches.len(),
    ensures
        rewrite_all(branches, k) is Ok <==> forall|i: int|
            0 <= i < k ==> (#[trigger] rewrite_spec(branches[i])) is Ok,
        rewrite_all(branches, k) matches Ok(done) ==> {
            &&& done.len() == k
            &&& forall|i: int|
                0 <= i < k ==> done[i] == (#[trigger] rewrite_spec(branches[i]))->Ok_0
            &&& forall|name: Seq<char>|
                names_upto(branches, k).contains(name) <==> exists|i: int|
                    0 <= i < k && (#[trigger] captured_names(branches[i])).contains(name)
        },
        rewrite_all(branches, k) matches Err(e) ==> exists|i: int|
            {
                &&& 0 <= i < k
                &&& (#[trigger] rewrite_spec(branches[i])) == Err::<
                    BytePatternView<T, S>,
                    CompileError<S>,
                >(e)
                &&& forall|j: int| 0 <= j < i ==> (#[trigger] rewrite_spec(branches[j])) is Ok
            },
    decreases k,
{
    if k > 0 {
        let prev = (k - 1) as nat;
        lemma_branches_one_by_one(branches, prev);
        match rewrite_all(branches, prev) {
            Err(e) => {},
            Ok(done) => {
                match rewrite_spec(branches[k - 1]) {
                    Err(e) => {
                        assert(rewrite_spec(branches[k - 1]) == Err::<
                            BytePatternView<T, S>,
                            CompileError<S>,
                        >(e));
                    },
                    Ok(branch) => {
                        let now = done.push(branch);
                        assert(rewrite_all(branches, k) == Ok::<
                            Seq<BytePatternView<T, S>>,
                            CompileError<S>,
                        >(now));
                        assert forall|i: int| 0 <= i < k implies now[i] == (
                        #[trigger] rewrite_spec(branches[i]))->Ok_0 by {
                            if i < k - 1 {
                                assert(now[i] == done[i]);
                            }
                        }
                        assert(names_upto(branches, k) == names_upto(branches, prev).union(
                            captured_names(branches[k - 1]),
                        ));
                        assert forall|name: Seq<char>|
                            names_upto(branches, k).contains(name) <==> exists|i: int|
                                0 <= i < k && (#[trigger] captured_names(branches[i])).contains(
                                    name,
                                ) by {
                            if names_upto(branches, k).contains(name) {
                                if captured_names(branches[k - 1]).contains(name) {
                                } else {
                                    assert(names_upto(branches, prev).contains(name));
                                    let i = choose|i: int|
                                        0 <= i < prev && (#[trigger] captured_names(
                                            branches[i],
                                        )).contains(name);
                                    assert(0 <= i < k && captured_names(branches[i]).contains(
                                        name,
                                    ));
                                }
                            }
                            if exists|i: int|
                                0 <= i < k && (#[trigger] captured_names(branches[i])).contains(
                                    name,
                                ) {
                                let i = choose|i: int|
                                    0 <= i < k && (#[trigger] captured_names(
                                        branches[i],
                                    )).contains(name);
                                if i < k - 1 {
                                    assert(0 <= i < prev && captured_names(branches[i]).contains(
                                        name,
                                    ));
                                    assert(names_upto(branches, prev).contains(name));
                                }
                            }
                        }
                    },
                }
            },
        }
    } else {
        assert(rewrite_all(branches, k) == Ok::<Seq<BytePatternView<T, S>>, CompileError<S>>(
            Seq::empty(),
        ));
    }
}

/// An or-group is rewritten iff every branch is. Its branches are then the
/// rewritten branches in the order of the group, and the names it captures are
/// those of all branches together; nothing asks the branches to agree on
/// them.
pub proof fn or_group_unites_names<T, S>(leading_separator: bool, branches: Seq<TreeView<T, S>>)
    ensures
        ({
            let group = TreeView::Or { leading_separator, branches };
            &&& rewrite_spec(group) is Ok <==> forall|i: int|
                0 <= i < branches.len() ==> (#[trigger] rewrite_spec(branches[i])) is Ok
            &&& rewrite_spec(group) matches Ok(rewritten) ==> {
                &&& rewritten matches BytePatternView::Or { leading_separator: l, branches: bs }
                &&& l == leading_separator
                &&& bs.len() == branches.len()
                &&& forall|i: int|
                    0 <= i < branches.len() ==> bs[i] == (#[trigger] rewrite_spec(
                        branches[i],
                    ))->Ok_0
                &&& forall|name: Seq<char>|
                    captured_names(group).contains(name) <==> exists|i: int|
                        0 <= i < branches.len() && (#[trigger] captured_names(
                            branches[i],
                        )).contains(name)
            }
        }),
{
    lemma_branches_one_by_one(branches, branches.len());
    let group = TreeView::Or { leading_separator, branches };
    assert(captured_names(group) == names_upto(branches, branches.len()));
    match rewrite_all(branches, branches.len()) {
        Ok(done) => {
            assert(rewrite_spec(group) == Ok::<BytePatternView<T, S>, CompileError<S>>(
                BytePatternView::Or { leading_separator, branches: done },
            ));
        },
        Err(e) => {
            assert(rewrite_spec(group) is Err);
        },
    }
}

/// A tree captures finitely many names.
pub proof fn captured_names_are_finite<T, S>(tree: TreeView<T, S>)
    ensures
        captured_names(tree).finite(),
    decreases tree, 0nat,
{
    match tree {
        TreeView::Or { leading_separator, branches } => {
            lemma_names_upto_finite(branches, branches.len());
        },
        _ => {},
    }
}

/// The first `k` branches of an or-group capture finitely many names.
pub proof fn lemma_names_upto_finite<T, S>(branches: Seq<TreeView<T, S>>, k: nat)
    ensures
        names_upto(branches, k).finite(),
    decreases branches, k,
{
    if k == 0 || k > branches.len() {
    } else {
        lemma_names_upto_finite(branches, (k - 1) as nat);
        captured_names_are_finite(branches[k - 1]);
    }
}

} // verus!
