//! Compiling the arms of a `match` on a string, one by one and in order.

use vstd::prelude::*;
use crate::captures::names_of;
use crate::captures::sorted_names;
use crate::captures::sorted_names_are_unique;
use crate::captures::sorted_names_exist;
use crate::captures::strictly_sorted;
use crate::captures::CaptureSet;
use crate::rewrite::captured_names;
use crate::rewrite::captured_names_are_finite;
use crate::rewrite::convert_pat;
use crate::rewrite::rewrite_spec;
use crate::tree::BytePattern;
use crate::tree::BytePatternView;
use crate::tree::CompileError;
use crate::tree::PatternTree;
use crate::tree::TreeView;
use crate::vecs::reversed;

verus! {

/// One arm of a `match`: attributes, pattern, optional guard, body.
#[derive(Debug, PartialEq, Eq)]
pub struct MatchArm<T, S> {
    pub attrs: Vec<T>,
    pub pattern: PatternTree<T, S>,
    pub guard: Option<T>,
    pub body: T,
}

/// A compiled arm. Its pattern is over bytes, so a captured name is bound
/// to bytes; `rebinds` lists the names that have to be bound again, as
/// text, in front of the guard and in front of the body, in this order.
#[derive(Debug, PartialEq, Eq)]
pub struct CompiledArm<T, S> {
    pub attrs: Vec<T>,
    pub pattern: BytePattern<T, S>,
    pub rebinds: Vec<String>,
    pub guard: Option<T>,
    pub body: T,
}

/// A `match` on a string: the subject and the arms, first arm first.
#[derive(Debug, PartialEq, Eq)]
pub struct MatchStatement<T, S> {
    pub subject: T,
    pub arms: Vec<MatchArm<T, S>>,
}

/// A compiled `match`: the arms are to be tried, in this order, against
/// the bytes of `subject`.
#[derive(Debug, PartialEq, Eq)]
pub struct CompiledMatch<T, S> {
    pub subject: T,
    pub arms: Vec<CompiledArm<T, S>>,
}

/// Mathematical model of a [`MatchArm`].
pub struct ArmView<T, S> {
    pub attrs: Seq<T>,
    pub pattern: TreeView<T, S>,
    pub guard: Option<T>,
    pub body: T,
}

/// Mathematical model of a [`CompiledArm`].
pub struct CompiledArmView<T, S> {
    pub attrs: Seq<T>,
    pub pattern: BytePatternView<T, S>,
    pub rebinds: Seq<Seq<char>>,
    pub guard: Option<T>,
    pub body: T,
}

/// Mathematical model of a [`MatchStatement`].
pub struct StatementView<T, S> {
    pub subject: T,
    pub arms: Seq<ArmView<T, S>>,
}

/// Mathematical model of a [`CompiledMatch`].
pub struct CompiledMatchView<T, S> {
    pub subject: T,
    pub arms: Seq<CompiledArmView<T, S>>,
}

impl<T, S> View for MatchArm<T, S> {
    type V = ArmView<T, S>;

    open spec fn view(&self) -> ArmView<T, S> {
        ArmView { attrs: self.attrs@, pattern: self.pattern@, guard: self.guard, body: self.body }
    }
}

impl<T, S> View for CompiledArm<T, S> {
    type V = CompiledArmView<T, S>;

    open spec fn view(&self) -> CompiledArmView<T, S> {
        CompiledArmView {
            attrs: self.attrs@,
            pattern: self.pattern@,
            rebinds: names_of(self.rebinds@),
            guard: self.guard,
            body: self.body,
        }
    }
}

impl<T, S> View for MatchStatement<T, S> {
    type V = StatementView<T, S>;

    open spec fn view(&self) -> StatementView<T, S> {
        StatementView { subject: self.subject, arms: Seq::new(self.arms@.len(), |i: int| self.arms@[i]@) }
    }
}

impl<T, S> View for CompiledMatch<T, S> {
    type V = CompiledMatchView<T, S>;

    open spec fn view(&self) -> CompiledMatchView<T, S> {
        CompiledMatchView {
            subject: self.subject,
            arms: Seq::new(self.arms@.len(), |i: int| self.arms@[i]@),
        }
    }
}

/// What an arm compiles to: its pattern rewritten, and the names that the
/// pattern captures, sorted, to be rebound as text. Attributes, guard and
/// body stay as they are. An error in the pattern is the arm's error.
pub open spec fn compile_arm_spec<T, S>(arm: ArmView<T, S>) -> Result<
    CompiledArmView<T, S>,
    CompileError<S>,
> {
    match rewrite_spec(arm.pattern) {
        Err(e) => Err(e),
        Ok(pattern) => Ok(
            CompiledArmView {
                attrs: arm.attrs,
                pattern,
                rebinds: sorted_names(captured_names(arm.pattern)),
                guard: arm.guard,
                body: arm.body,
            },
        ),
    }
}

/// The first `k` arms compiled in order, or the first error among them.
pub open spec fn compile_arms_spec<T, S>(arms: Seq<ArmView<T, S>>, k: nat) -> Result<
    Seq<CompiledArmView<T, S>>,
    CompileError<S>,
>
    decreases k,
{
    if k == 0 || k > arms.len() {
        Ok(Seq::empty())
    } else {
        match compile_arms_spec(arms, (k - 1) as nat) {
            Err(e) => Err(e),
            Ok(done) => match compile_arm_spec(arms[k - 1]) {
                Err(e) => Err(e),
                Ok(arm) => Ok(done.push(arm)),
            },
        }
    }
}

/// What a `match` compiles to: the same subject, and every arm compiled,
/// in the order of the statement. The first arm that fails makes the whole
/// statement fail with its error.
pub open spec fn compile_match_spec<T, S>(statement: StatementView<T, S>) -> Result<
    CompiledMatchView<T, S>,
    CompileError<S>,
> {
    match compile_arms_spec(statement.arms, statement.arms.len()) {
        Err(e) => Err(e),
        Ok(arms) => Ok(CompiledMatchView { subject: statement.subject, arms }),
    }
}

/// The model of the result of compiling an arm.
pub open spec fn compiled_arm_view<T, S>(r: Result<CompiledArm<T, S>, CompileError<S>>) -> Result<
    CompiledArmView<T, S>,
    CompileError<S>,
> {
    match r {
        Ok(arm) => Ok(arm@),
        Err(e) => Err(e),
    }
}

/// The model of the result of compiling a statement.
pub open spec fn compiled_match_view<T, S>(
    r: Result<CompiledMatch<T, S>, CompileError<S>>,
) -> Result<CompiledMatchView<T, S>, CompileError<S>> {
    match r {
        Ok(compiled) => Ok(compiled@),
        Err(e) => Err(e),
    }
}

/// Once an arm has failed, the arms behind it change nothing.
pub proof fn lemma_arm_error_is_final<T, S>(arms: Seq<ArmView<T, S>>, k: nat, m: nat)
    requires
        k <= m <= arms.len(),
        compile_arms_spec(arms, k) is Err,
    ensures
        compile_arms_spec(arms, m) == compile_arms_spec(arms, k),
    decreases m,
{
    if m > k {
        lemma_arm_error_is_final(arms, k, (m - 1) as nat);
    }
}

/// Compiles one arm: rewrites its pattern against a fresh capture set and
/// lists the captured names in lexicographic order.
pub fn compile_arm<T, S>(arm: MatchArm<T, S>) -> (r: Result<CompiledArm<T, S>, CompileError<S>>)
    ensures
        compiled_arm_view(r) == compile_arm_spec(arm@),
{
    let MatchArm { attrs, pattern, guard, body } = arm;
    let mut set = CaptureSet::new();
    let ghost tree = pattern@;
    match convert_pat(pattern, &mut set) {
        Err(e) => Err(e),
        Ok(rewritten) => {
            let rebinds = set.into_sorted();
            proof {
                let names = captured_names(tree);
                assert(Set::<Seq<char>>::empty().union(names) =~= names);
                let mine = names_of(rebinds@);
                assert(strictly_sorted(mine) && mine.to_set() == names);
                sorted_names_are_unique(mine, sorted_names(names));
            }
            Ok(CompiledArm { attrs, pattern: rewritten, rebinds, guard, body })
        },
    }
}

/// Compiles a `match` on a string: every arm is compiled, in order, and
/// the subject stays what it was. The first error ends the compilation.
pub fn str_match_impl<T, S>(statement: MatchStatement<T, S>) -> (r: Result<
    CompiledMatch<T, S>,
    CompileError<S>,
>)
    ensures
        compiled_match_view(r) == compile_match_spec(statement@),
{
    let ghost views = statement@.arms;
    let MatchStatement { subject, arms } = statement;
    let ghost n = arms@.len();
    let ghost all = arms@;
    let mut stack = reversed(arms);
    let mut out: Vec<CompiledArm<T, S>> = Vec::new();
    while stack.len() > 0
        invariant
            n == all.len(),
            n == views.len(),
            views == statement@.arms,
            forall|j: int| 0 <= j < n ==> all[j]@ == views[j],
            stack@.len() + out@.len() == n,
            forall|j: int| 0 <= j < stack@.len() ==> stack@[j] == all[n - 1 - j],
            compile_arms_spec(views, out@.len() as nat) is Ok,
            compile_arms_spec(views, out@.len() as nat)->Ok_0.len() == out@.len(),
            forall|j: int|
                0 <= j < out@.len() ==> out@[j]@ == compile_arms_spec(
                    views,
                    out@.len() as nat,
                )->Ok_0[j],
        decreases stack@.len(),
    {
        let ghost i = out@.len();
        let ghost done = compile_arms_spec(views, i as nat)->Ok_0;
        let arm = stack.pop().unwrap();
        assert(arm == all[i as int]);
        match compile_arm(arm) {
            Ok(compiled) => {
                proof {
                    assert(compile_arms_spec(views, (i + 1) as nat) == Ok::<
                        Seq<CompiledArmView<T, S>>,
                        CompileError<S>,
                    >(done.push(compiled@)));
                }
                out.push(compiled);
            },
            Err(e) => {
                proof {
                    assert(compile_arms_spec(views, (i + 1) as nat) is Err);
                    lemma_arm_error_is_final(views, (i + 1) as nat, n);
                }
                return Err(e);
            },
        }
    }
    let r = CompiledMatch { subject, arms: out };
    assert(r@.arms =~= compile_arms_spec(views, n)->Ok_0);
    Ok(r)
}

/// The names that a compiled arm rebinds are the names that its pattern
/// captures, each once, in lexicographic order.
pub proof fn rebinds_are_the_sorted_captures<T, S>(arm: ArmView<T, S>)
    requires
        compile_arm_spec(arm) is Ok,
    ensures
        ({
            let compiled = compile_arm_spec(arm)->Ok_0;
            &&& strictly_sorted(compiled.rebinds)
            &&& compiled.rebinds.to_set() == captured_names(arm.pattern)
            &&& compiled.rebinds.len() == captured_names(arm.pattern).len()
            &&& compiled.attrs == arm.attrs
            &&& compiled.guard == arm.guard
            &&& compiled.body == arm.body
            &&& rewrite_spec(arm.pattern) == Ok::<BytePatternView<T, S>, CompileError<S>>(
                compiled.pattern,
            )
        }),
{
    captured_names_are_finite(arm.pattern);
    sorted_names_exist(captured_names(arm.pattern));
}

/// A statement compiles iff each of its arms does. The compiled statement
/// has the same subject and, arm for arm and in the same order, the
/// compiled arms.
pub proof fn arms_compile_one_by_one<T, S>(arms: Seq<ArmView<T, S>>, k: nat)
    requires
        k <= arms.len(),
    ensures
        compile_arms_spec(arms, k) is Ok <==> forall|i: int|
            0 <= i < k ==> (#[trigger] compile_arm_spec(arms[i])) is Ok,
        compile_arms_spec(arms, k) matches Ok(done) ==> {
            &&& done.len() == k
            &&& forall|i: int|
                0 <= i < k ==> done[i] == (#[trigger] compile_arm_spec(arms[i]))->Ok_0
        },
        compile_arms_spec(arms, k) matches Err(e) ==> exists|i: int|
            {
                &&& 0 <= i < k
                &&& (#[trigger] compile_arm_spec(arms[i])) == Err::<
                    CompiledArmView<T, S>,
                    CompileError<S>,
                >(e)
                &&& forall|j: int| 0 <= j < i ==> (#[trigger] compile_arm_spec(arms[j])) is Ok
            },
    decreases k,
{
    if k > 0 {
        let prev = (k - 1) as nat;
        arms_compile_one_by_one(arms, prev);
        match compile_arms_spec(arms, prev) {
            Err(e) => {},
            Ok(done) => {
                match compile_arm_spec(arms[k - 1]) {
                    Err(e) => {
                        assert(compile_arm_spec(arms[k - 1]) == Err::<
                            CompiledArmView<T, S>,
                            CompileError<S>,
                        >(e));
                    },
                    Ok(arm) => {
                        let now = done.push(arm);
                        assert(compile_arms_spec(arms, k) == Ok::<
                            Seq<CompiledArmView<T, S>>,
                            CompileError<S>,
                        >(now));
                        assert forall|i: int| 0 <= i < k implies now[i] == (
                        #[trigger] compile_arm_spec(arms[i]))->Ok_0 by {
                            if i < k - 1 {
                                assert(now[i] == done[i]);
                            }
                        }
                    },
                }
            },
        }
    } else {
        assert(compile_arms_spec(arms, k) == Ok::<Seq<CompiledArmView<T, S>>, CompileError<S>>(
            Seq::empty(),
        ));
    }
}

} // verus!
