//! The substitution algebra: finite maps from type-variable names to
//! monomorphic types, application of a substitution to a type, and
//! composition.

use vstd::prelude::*;

use crate::models::Context;
use crate::models::MonoType;
use crate::models::PolyType;
use crate::models::SpecErr;
use crate::models::SpecMono;
use crate::models::SpecPoly;
use crate::models::TypeApp;
use crate::models::TypeError;
use crate::models::TypeQuantifier;
use crate::models::assoc_view;
use crate::models::distinct_seq;
use crate::models::ftv_ctx;
use crate::models::ftv_mono;
use crate::models::quantify;
use crate::models::ftv_seq;
use crate::models::lemma_assoc_view_congruent;
use crate::models::leaf_ty;
use crate::models::lemma_ftv_finite;
use crate::models::lemma_ftv_seq;
use crate::models::lemma_size_pos;
use crate::models::quan_count;
use crate::models::lemma_mono_seq_view;
use crate::models::lemma_size_seq_element;
use crate::models::mono_seq_view;
use crate::models::size_seq;
use crate::models::size_ty;

verus! {

/// What a substitution denotes: a finite map from type-variable names to
/// monomorphic types.
pub type SpecSubst = Map<Seq<char>, SpecMono>;

/// Replace each free type variable of `t` that `s` maps by its image,
/// recursing through type applications.
pub open spec fn apply_ty(s: SpecSubst, t: SpecMono) -> SpecMono
    decreases t,
{
    match t {
        SpecMono::Var { name } => if s.dom().contains(name) {
            s[name]
        } else {
            t
        },
        SpecMono::App { ctor, args } => SpecMono::App { ctor, args: apply_seq(s, args) },
    }
}

/// Apply a substitution to each type of a sequence.
pub open spec fn apply_seq(s: SpecSubst, ts: Seq<SpecMono>) -> Seq<SpecMono>
    decreases ts,
{
    if ts.len() == 0 {
        Seq::empty()
    } else {
        seq![apply_ty(s, ts[0])] + apply_seq(s, ts.drop_first())
    }
}

/// `apply_seq` maps each element through `apply_ty`.
pub proof fn lemma_apply_seq(s: SpecSubst, ts: Seq<SpecMono>)
    ensures
        apply_seq(s, ts).len() == ts.len(),
        forall|i: int| 0 <= i < ts.len() ==> apply_seq(s, ts)[i] == apply_ty(s, #[trigger] ts[i]),
    decreases ts,
{
    if ts.len() > 0 {
        lemma_apply_seq(s, ts.drop_first());
        assert(apply_seq(s, ts) == seq![apply_ty(s, ts[0])] + apply_seq(s, ts.drop_first()));
        assert forall|i: int| 0 <= i < ts.len() implies apply_seq(s, ts)[i] == apply_ty(s, ts[i]) by {
            if i > 0 {
                assert(apply_seq(s, ts)[i] == apply_seq(s, ts.drop_first())[i - 1]);
                assert(ts.drop_first()[i - 1] == ts[i]);
            }
        }
    }
}

/// The composition of `s1` with `s2`: applying it is applying `s1` first,
/// then `s2`.
pub open spec fn compose_spec(s1: SpecSubst, s2: SpecSubst) -> SpecSubst {
    Map::new(
        |k: Seq<char>| s1.dom().contains(k) || s2.dom().contains(k),
        |k: Seq<char>|
            if s1.dom().contains(k) {
                apply_ty(s2, s1[k])
            } else {
                s2[k]
            },
    )
}

/// Applying the empty substitution changes no type.
pub proof fn lemma_apply_empty(t: SpecMono)
    ensures
        apply_ty(Map::empty(), t) == t,
    decreases t,
{
    match t {
        SpecMono::Var { name } => {},
        SpecMono::App { ctor, args } => {
            lemma_apply_empty_seq(args);
        },
    }
}

proof fn lemma_apply_empty_seq(ts: Seq<SpecMono>)
    ensures
        apply_seq(Map::empty(), ts) =~= ts,
    decreases ts,
{
    if ts.len() > 0 {
        lemma_apply_empty(ts[0]);
        lemma_apply_empty_seq(ts.drop_first());
    }
}

/// Applying a substitution to each value of a substitution-denoted map.
pub open spec fn map_apply_subst(m: SpecSubst, s: SpecSubst) -> SpecSubst {
    Map::new(|k: Seq<char>| m.dom().contains(k), |k: Seq<char>| apply_ty(s, m[k]))
}

/// The map denoted by a substitution's entries.
pub open spec fn subst_view_of(entries: Seq<(String, MonoType)>) -> SpecSubst {
    assoc_view(entries, |m: MonoType| m@)
}

/// Applying a composed substitution is applying the two substitutions in
/// order: `apply(compose(s1, s2), t) == apply(s2, apply(s1, t))`.
pub proof fn lemma_apply_compose(s1: SpecSubst, s2: SpecSubst, t: SpecMono)
    ensures
        apply_ty(compose_spec(s1, s2), t) == apply_ty(s2, apply_ty(s1, t)),
    decreases t,
{
    match t {
        SpecMono::Var { name } => {},
        SpecMono::App { ctor, args } => {
            lemma_apply_seq(compose_spec(s1, s2), args);
            lemma_apply_seq(s1, args);
            lemma_apply_seq(s2, apply_seq(s1, args));
            assert forall|i: int| 0 <= i < args.len() implies apply_seq(compose_spec(s1, s2), args)[i]
                == apply_seq(s2, apply_seq(s1, args))[i] by {
                lemma_apply_compose(s1, s2, args[i]);
            }
            assert(apply_seq(compose_spec(s1, s2), args) =~= apply_seq(s2, apply_seq(s1, args)));
            assert(apply_ty(compose_spec(s1, s2), t) =~= apply_ty(s2, apply_ty(s1, t)));
        },
    }
}

// ---------------------------------------------------------------------------
// Unifiers
// ---------------------------------------------------------------------------

/// `m` makes `a` and `b` syntactically equal.
pub open spec fn is_unifier(m: SpecSubst, a: SpecMono, b: SpecMono) -> bool {
    apply_ty(m, a) == apply_ty(m, b)
}

/// Applying `s` first makes no difference under `m`: `m` subsumes `s`.
pub open spec fn absorbs(m: SpecSubst, s: SpecSubst) -> bool {
    forall|t: SpecMono| apply_ty(m, #[trigger] apply_ty(s, t)) == apply_ty(m, t)
}

/// No variable bound by `s` occurs in any type of `s`'s range.
pub open spec fn solved_form(s: SpecSubst) -> bool {
    forall|v: Seq<char>, w: Seq<char>|
        s.dom().contains(v) && #[trigger] ftv_mono(s[v]).contains(w) ==> !s.dom().contains(w)
}

/// A substitution whose bound variables are all absent from `t` leaves `t`
/// unchanged.
pub proof fn lemma_apply_disjoint(s: SpecSubst, t: SpecMono)
    requires
        forall|v: Seq<char>| #[trigger] ftv_mono(t).contains(v) ==> !s.dom().contains(v),
    ensures
        apply_ty(s, t) == t,
    decreases t,
{
    match t {
        SpecMono::Var { name } => {
            assert(ftv_mono(t).contains(name));
        },
        SpecMono::App { ctor, args } => {
            lemma_apply_seq(s, args);
            assert forall|i: int| 0 <= i < args.len() implies apply_ty(s, #[trigger] args[i])
                == args[i] by {
                assert forall|v: Seq<char>| #[trigger] ftv_mono(args[i]).contains(v) implies !s.dom().contains(v) by {
                    lemma_ftv_seq(args, v);
                    assert(ftv_seq(args).contains(v));
                    assert(ftv_mono(t).contains(v));
                }
                lemma_apply_disjoint(s, args[i]);
            }
            assert(apply_seq(s, args) =~= args);
        },
    }
}

/// Every variable free after applying `s` is either an untouched free
/// variable of `t` or free in some type that `s` substituted in.
pub proof fn lemma_ftv_apply(s: SpecSubst, t: SpecMono, v: Seq<char>)
    requires
        ftv_mono(apply_ty(s, t)).contains(v),
    ensures
        (ftv_mono(t).contains(v) && !s.dom().contains(v)) || exists|k: Seq<char>|
            #[trigger] s.dom().contains(k) && ftv_mono(t).contains(k) && ftv_mono(s[k]).contains(v),
    decreases t,
{
    match t {
        SpecMono::Var { name } => {
            if s.dom().contains(name) {
                assert(ftv_mono(t).contains(name));
            } else {
                assert(ftv_mono(t).contains(v));
            }
        },
        SpecMono::App { ctor, args } => {
            lemma_apply_seq(s, args);
            lemma_ftv_seq(apply_seq(s, args), v);
            let i = choose|i: int|
                0 <= i < apply_seq(s, args).len() && #[trigger] ftv_mono(
                    apply_seq(s, args)[i],
                ).contains(v);
            assert(apply_seq(s, args)[i] == apply_ty(s, args[i]));
            lemma_ftv_apply(s, args[i], v);
            lemma_ftv_seq(args, v);
            if ftv_mono(args[i]).contains(v) && !s.dom().contains(v) {
                assert(ftv_mono(t).contains(v));
            } else {
                let k = choose|k: Seq<char>|
                    #[trigger] s.dom().contains(k) && ftv_mono(args[i]).contains(k) && ftv_mono(
                        s[k],
                    ).contains(v);
                lemma_ftv_seq(args, k);
                assert(ftv_mono(t).contains(k));
            }
        },
    }
}

/// Applying a solved-form substitution leaves no bound variable free.
pub proof fn lemma_solved_form_clears(s: SpecSubst, t: SpecMono)
    requires
        solved_form(s),
    ensures
        forall|v: Seq<char>|
            #[trigger] ftv_mono(apply_ty(s, t)).contains(v) ==> !s.dom().contains(v),
{
    assert forall|v: Seq<char>| #[trigger] ftv_mono(apply_ty(s, t)).contains(v) implies !s.dom().contains(v) by {
        lemma_ftv_apply(s, t, v);
    }
}

/// A variable free under `m` in a type properly containing it cannot be
/// unified with that type: the images would have different sizes.
pub proof fn lemma_apply_size(m: SpecSubst, t: SpecMono, v: Seq<char>)
    requires
        ftv_mono(t).contains(v),
    ensures
        size_ty(apply_ty(m, t)) >= size_ty(apply_ty(m, SpecMono::Var { name: v })),
        t is App ==> size_ty(apply_ty(m, t)) > size_ty(apply_ty(m, SpecMono::Var { name: v })),
    decreases t,
{
    match t {
        SpecMono::Var { name } => {},
        SpecMono::App { ctor, args } => {
            lemma_ftv_seq(args, v);
            let i = choose|i: int| 0 <= i < args.len() && #[trigger] ftv_mono(args[i]).contains(v);
            lemma_apply_size(m, args[i], v);
            lemma_apply_seq(m, args);
            lemma_size_seq_element(apply_seq(m, args), i);
        },
    }
}

/// An occurs-check failure is final: no substitution unifies a variable with
/// a type application in which that variable occurs free.
pub proof fn lemma_occurs_no_unifier(v: Seq<char>, t: SpecMono)
    requires
        ftv_mono(t).contains(v),
        t is App,
    ensures
        forall|m: SpecSubst| !is_unifier(m, SpecMono::Var { name: v }, t),
{
    assert forall|m: SpecSubst| !is_unifier(m, SpecMono::Var { name: v }, t) by {
        lemma_apply_size(m, t, v);
    }
}

/// A unifier of a variable and a type subsumes the singleton substitution
/// binding that variable to that type.
pub proof fn lemma_single_absorbed(m: SpecSubst, v: Seq<char>, t: SpecMono, u: SpecMono)
    requires
        is_unifier(m, SpecMono::Var { name: v }, t),
    ensures
        apply_ty(m, apply_ty(Map::empty().insert(v, t), u)) == apply_ty(m, u),
    decreases u,
{
    let single = Map::<Seq<char>, SpecMono>::empty().insert(v, t);
    match u {
        SpecMono::Var { name } => {},
        SpecMono::App { ctor, args } => {
            lemma_apply_seq(single, args);
            lemma_apply_seq(m, apply_seq(single, args));
            lemma_apply_seq(m, args);
            assert forall|i: int| 0 <= i < args.len() implies apply_seq(m, apply_seq(single, args))[i]
                == apply_seq(m, args)[i] by {
                lemma_single_absorbed(m, v, t, args[i]);
            }
            assert(apply_seq(m, apply_seq(single, args)) =~= apply_seq(m, args));
        },
    }
}

/// Unifying a type with itself owes a substitution that changes nothing:
/// whatever subsumes every unifier of `(t, t)` acts as the identity.
pub proof fn lemma_self_mgu_identity(s: SpecSubst, t: SpecMono, u: SpecMono)
    requires
        forall|m: SpecSubst| #[trigger] is_unifier(m, t, t) ==> absorbs(m, s),
    ensures
        apply_ty(s, u) == u,
{
    let id = Map::<Seq<char>, SpecMono>::empty();
    assert(is_unifier(id, t, t));
    assert(apply_ty(id, apply_ty(s, u)) == apply_ty(id, u));
    lemma_apply_empty(apply_ty(s, u));
    lemma_apply_empty(u);
}

/// Type applications with different constructor names never unify.
pub proof fn lemma_ctor_mismatch_no_unifier(a: SpecMono, b: SpecMono)
    requires
        a is App,
        b is App,
        a->App_ctor != b->App_ctor,
    ensures
        forall|m: SpecSubst| !is_unifier(m, a, b),
{
    assert forall|m: SpecSubst| !is_unifier(m, a, b) by {
        assert(apply_ty(m, a)->App_ctor == a->App_ctor);
        assert(apply_ty(m, b)->App_ctor == b->App_ctor);
    }
}

/// Type applications with different argument counts never unify.
pub proof fn lemma_arity_mismatch_no_unifier(a: SpecMono, b: SpecMono)
    requires
        a is App,
        b is App,
        a->App_args.len() != b->App_args.len(),
    ensures
        forall|m: SpecSubst| !is_unifier(m, a, b),
{
    assert forall|m: SpecSubst| !is_unifier(m, a, b) by {
        lemma_apply_seq(m, a->App_args);
        lemma_apply_seq(m, b->App_args);
        assert(apply_ty(m, a)->App_args.len() == a->App_args.len());
        assert(apply_ty(m, b)->App_args.len() == b->App_args.len());
    }
}

/// Variables free after a singleton substitution: the bound variable is
/// gone, and nothing new appears beyond the bound type's variables.
pub proof fn lemma_ftv_single_apply(gvar: Seq<char>, gt: SpecMono, x: SpecMono, v: Seq<char>)
    requires
        ftv_mono(apply_ty(Map::empty().insert(gvar, gt), x)).contains(v),
        !ftv_mono(gt).contains(gvar),
    ensures
        v != gvar,
        ftv_mono(x).contains(v) || ftv_mono(gt).contains(v),
{
    let g = Map::<Seq<char>, SpecMono>::empty().insert(gvar, gt);
    lemma_ftv_apply(g, x, v);
    if !(ftv_mono(x).contains(v) && !g.dom().contains(v)) {
        let k = choose|k: Seq<char>|
            #[trigger] g.dom().contains(k) && ftv_mono(x).contains(k) && ftv_mono(g[k]).contains(
                v,
            );
        assert(k == gvar);
        assert(ftv_mono(gt).contains(v));
    }
}

/// Absorption distributes over composition.
pub proof fn lemma_absorbs_compose(m: SpecSubst, s: SpecSubst, d: SpecSubst)
    requires
        absorbs(m, s),
        absorbs(m, d),
    ensures
        absorbs(m, compose_spec(s, d)),
{
    assert forall|t: SpecMono| apply_ty(m, #[trigger] apply_ty(compose_spec(s, d), t)) == apply_ty(
        m,
        t,
    ) by {
        lemma_apply_compose(s, d, t);
        assert(apply_ty(m, apply_ty(d, apply_ty(s, t))) == apply_ty(m, apply_ty(s, t)));
    }
}

/// Every substitution subsumes the identity substitution.
pub proof fn lemma_absorbs_empty(m: SpecSubst)
    ensures
        absorbs(m, Map::empty()),
{
    assert forall|t: SpecMono| apply_ty(m, #[trigger] apply_ty(Map::empty(), t)) == apply_ty(
        m,
        t,
    ) by {
        lemma_apply_empty(t);
    }
}

/// Composition with the identity substitution on the left changes nothing.
pub proof fn lemma_compose_empty_left(s: SpecSubst)
    ensures
        compose_spec(Map::empty(), s) == s,
{
    assert(compose_spec(Map::<Seq<char>, SpecMono>::empty(), s) =~= s);
}

/// Composition with the identity substitution on the right changes nothing.
pub proof fn lemma_compose_empty_right(s: SpecSubst)
    ensures
        compose_spec(s, Map::empty()) == s,
{
    assert forall|k: Seq<char>| #[trigger] s.dom().contains(k) implies compose_spec(
        s,
        Map::empty(),
    )[k] == s[k] by {
        lemma_apply_empty(s[k]);
    }
    assert(compose_spec(s, Map::empty()) =~= s);
}

/// Composition of substitutions is associative.
pub proof fn lemma_compose_assoc(s1: SpecSubst, s2: SpecSubst, s3: SpecSubst)
    ensures
        compose_spec(compose_spec(s1, s2), s3) == compose_spec(s1, compose_spec(s2, s3)),
{
    let lhs = compose_spec(compose_spec(s1, s2), s3);
    let rhs = compose_spec(s1, compose_spec(s2, s3));
    assert forall|k: Seq<char>| #[trigger] lhs.dom().contains(k) implies lhs[k] == rhs[k] by {
        if s1.dom().contains(k) {
            lemma_apply_compose(s2, s3, s1[k]);
        }
    }
    assert(lhs =~= rhs);
}

// ---------------------------------------------------------------------------
// Association-list lemmas
// ---------------------------------------------------------------------------

/// Entries at or beyond index `i` that never mention key `k` do not affect
/// what the list says about `k`.
pub proof fn lemma_assoc_view_take<T, SV>(
    entries: Seq<(String, T)>,
    f: spec_fn(T) -> SV,
    k: Seq<char>,
    i: int,
)
    requires
        0 <= i <= entries.len(),
        forall|j: int| i <= j < entries.len() ==> (#[trigger] entries[j].0)@ != k,
    ensures
        assoc_view(entries, f).dom().contains(k) <==> assoc_view(entries.take(i), f).dom().contains(
            k,
        ),
        assoc_view(entries, f).dom().contains(k) ==> assoc_view(entries, f)[k] == assoc_view(
            entries.take(i),
            f,
        )[k],
    decreases entries.len() - i,
{
    if i == entries.len() {
        assert(entries.take(i) =~= entries);
    } else {
        let shorter = entries.drop_last();
        assert(entries.last().0@ != k);
        lemma_assoc_view_take(shorter, f, k, i);
        assert(shorter.take(i) =~= entries.take(i));
    }
}

/// The map denoted by a concatenation: the right-hand entries shadow the
/// left-hand ones.
pub proof fn lemma_assoc_view_concat<T, SV>(
    a: Seq<(String, T)>,
    b: Seq<(String, T)>,
    f: spec_fn(T) -> SV,
)
    ensures
        assoc_view(a + b, f) == assoc_view(a, f).union_prefer_right(assoc_view(b, f)),
    decreases b,
{
    if b.len() == 0 {
        assert(a + b =~= a);
        assert(assoc_view(a, f).union_prefer_right(assoc_view(b, f)) =~= assoc_view(a, f));
    } else {
        lemma_assoc_view_concat(a, b.drop_last(), f);
        assert((a + b).drop_last() =~= a + b.drop_last());
        assert((a + b).last() == b.last());
        assert(assoc_view(a + b, f) =~= assoc_view(a, f).union_prefer_right(
            assoc_view(b, f),
        ));
    }
}

// ---------------------------------------------------------------------------
// Substitutions
// ---------------------------------------------------------------------------

/// A value that a substitution can be pushed through.
pub trait Subst: View + Sized {
    /// The model of applying substitution `s` to this value.
    spec fn apply_model(self, s: SpecSubst) -> Self::V;

    /// Apply a substitution, replacing each mapped free type variable by its
    /// image.
    fn apply(self, s: &Substitution) -> (r: Self)
        ensures
            r@ == self.apply_model(s@),
    ;
}

/// A finite mapping from type-variable names to monomorphic types.
#[derive(Debug)]
pub struct Substitution {
    map: Vec<(String, MonoType)>,
}

impl View for Substitution {
    type V = SpecSubst;

    closed spec fn view(&self) -> SpecSubst {
        subst_view_of(self.map@)
    }
}

impl Clone for Substitution {
    /// A copy denoting the same mapping.
    #[verifier::loop_isolation(false)]
    fn clone(&self) -> (r: Self)
        ensures
            r@ == self@,
    {
        let mut entries: Vec<(String, MonoType)> = Vec::new();
        let n = self.map.len();
        let mut i: usize = 0;
        while i < n
            invariant
                i <= n,
                entries.len() == i,
                forall|j: int|
                    0 <= j < i ==> entries@[j].0@ == #[trigger] self.map@[j].0@ && entries@[j].1@
                        == self.map@[j].1@,
            decreases n - i,
        {
            let name = self.map[i].0.clone();
            let ty = self.map[i].1.clone();
            entries.push((name, ty));
            i += 1;
        }
        proof {
            lemma_assoc_view_congruent(entries@, self.map@, |m: MonoType| m@, |m: MonoType| m@);
        }
        Substitution { map: entries }
    }
}

impl Substitution {
    /// The identity substitution: applying it changes nothing.
    pub fn empty() -> (r: Substitution)
        ensures
            r@ == Map::<Seq<char>, SpecMono>::empty(),
    {
        Substitution { map: Vec::new() }
    }

    /// The substitution holding exactly the given bindings; a later entry
    /// with the same name shadows an earlier one.
    pub fn from_map(map: Vec<(String, MonoType)>) -> (r: Substitution)
        ensures
            r@ == subst_view_of(map@),
    {
        Substitution { map }
    }

    /// The binding for a type-variable name, if any.
    #[verifier::loop_isolation(false)]
    pub fn find(&self, name: &String) -> (r: Option<&MonoType>)
        ensures
            match r {
                Some(t) => self@.dom().contains(name@) && t@ == self@[name@],
                None => !self@.dom().contains(name@),
            },
    {
        let n = self.map.len();
        let mut i: usize = n;
        while i > 0
            invariant
                i <= n,
                forall|j: int| i <= j < n ==> (#[trigger] self.map@[j].0)@ != name@,
            decreases i,
        {
            i -= 1;
            if self.map[i].0 == *name {
                proof {
                    let f = |m: MonoType| m@;
                    lemma_assoc_view_take(self.map@, f, name@, i + 1);
                    let prefix = self.map@.take(i + 1);
                    assert(prefix.drop_last() =~= self.map@.take(i as int));
                    assert(prefix.last() == self.map@[i as int]);
                }
                return Some(&self.map[i].1);
            }
        }
        proof {
            let f = |m: MonoType| m@;
            lemma_assoc_view_take(self.map@, f, name@, 0);
            assert(self.map@.take(0) =~= Seq::empty());
        }
        None
    }

    /// The composition of `self` with `other`: applying the result is
    /// applying `self` first, then `other`.
    #[verifier::loop_isolation(false)]
    pub fn combine(self, other: Substitution) -> (r: Substitution)
        ensures
            r@ == compose_spec(self@, other@),
    {
        let mut applied: Vec<(String, MonoType)> = Vec::new();
        let n = self.map.len();
        let mut i: usize = 0;
        while i < n
            invariant
                i <= n,
                subst_view_of(applied@) == map_apply_subst(
                    subst_view_of(self.map@.take(i as int)),
                    other@,
                ),
            decreases n - i,
        {
            let name = self.map[i].0.clone();
            let ty = self.map[i].1.clone();
            let image = ty.apply(&other);
            let ghost pre = applied@;
            let ghost k = name@;
            let ghost v = image@;
            applied.push((name, image));
            i += 1;
            proof {
                let f = |m: MonoType| m@;
                let prefix = self.map@.take(i as int);
                assert(prefix.drop_last() =~= self.map@.take(i - 1));
                assert(prefix.last() == self.map@[i - 1]);
                assert(applied@.drop_last() =~= pre);
                assert(applied@.last().0@ == k && applied@.last().1@ == v);
                assert(subst_view_of(applied@) == subst_view_of(pre).insert(k, v));
                assert(subst_view_of(applied@) =~= map_apply_subst(
                    subst_view_of(prefix),
                    other@,
                ));
            }
        }
        proof {
            assert(self.map@.take(n as int) =~= self.map@);
        }
        let mut entries = other.map;
        let ghost other_entries = entries@;
        let ghost applied_entries = applied@;
        entries.append(&mut applied);
        proof {
            let f = |m: MonoType| m@;
            assert(entries@ == other_entries + applied_entries);
            lemma_assoc_view_concat(other_entries, applied_entries, f);
        }
        let r = Substitution { map: entries };
        proof {
            assert(r@ =~= compose_spec(self@, other@));
        }
        r
    }
}

// ---------------------------------------------------------------------------
// Fresh type variables
// ---------------------------------------------------------------------------

/// The decimal digit character for `d` (which must be below ten).
pub open spec fn digit_char(d: nat) -> char {
    if d == 0 {
        '0'
    } else if d == 1 {
        '1'
    } else if d == 2 {
        '2'
    } else if d == 3 {
        '3'
    } else if d == 4 {
        '4'
    } else if d == 5 {
        '5'
    } else if d == 6 {
        '6'
    } else if d == 7 {
        '7'
    } else if d == 8 {
        '8'
    } else {
        '9'
    }
}

/// The decimal digits of `n`, most significant first, no leading zeros.
pub open spec fn dec_digits(n: nat) -> Seq<char>
    decreases n,
{
    if n < 10 {
        seq![digit_char(n)]
    } else {
        dec_digits(n / 10).push(digit_char(n % 10))
    }
}

/// The name of the fresh type variable with index `n`: `t` followed by the
/// decimal digits of `n`.
pub open spec fn var_name(n: nat) -> Seq<char> {
    seq!['t'] + dec_digits(n)
}

/// The counter value after one fresh-variable request.
pub open spec fn wrap_inc(c: u64) -> u64 {
    if c == u64::MAX {
        0
    } else {
        (c + 1) as u64
    }
}

/// The counter value after `k` fresh-variable requests.
pub open spec fn wrap_add(c: u64, k: nat) -> u64
    decreases k,
{
    if k == 0 {
        c
    } else {
        wrap_add(wrap_inc(c), (k - 1) as nat)
    }
}

/// Relies on `String::push`: appends one character to the string.
#[verifier::external_body]
pub(crate) fn push_char(s: &mut String, c: char)
    ensures
        final(s)@ == old(s)@ + seq![c],
{
    s.push(c)
}

/// Append the decimal digits of `n` to `s`.
fn push_digits(n: u64, s: &mut String)
    ensures
        final(s)@ == old(s)@ + dec_digits(n as nat),
    decreases n,
{
    if n >= 10 {
        push_digits(n / 10, s);
    }
    let d = n % 10;
    let c: char = if d == 0 {
        '0'
    } else if d == 1 {
        '1'
    } else if d == 2 {
        '2'
    } else if d == 3 {
        '3'
    } else if d == 4 {
        '4'
    } else if d == 5 {
        '5'
    } else if d == 6 {
        '6'
    } else if d == 7 {
        '7'
    } else if d == 8 {
        '8'
    } else {
        '9'
    };
    push_char(s, c);
    proof {
        if n >= 10 {
            assert(s@ =~= old(s)@ + dec_digits(n as nat));
        } else {
            assert(s@ =~= old(s)@ + dec_digits(n as nat));
        }
    }
}

/// A source of pairwise distinct fresh type-variable names: `t0`, `t1`, and
/// so on, request-ordered and resettable between independent inference runs.
/// One generator serves one logical caller at a time.
#[derive(Debug)]
pub struct TypeVarGen {
    counter: u64,
}

impl TypeVarGen {
    /// The index the next fresh variable will get.
    pub closed spec fn count(&self) -> u64 {
        self.counter
    }

    /// A generator starting at `t0`.
    pub fn new() -> (r: TypeVarGen)
        ensures
            r.count() == 0,
    {
        TypeVarGen { counter: 0 }
    }

    /// The next fresh type variable.
    pub fn new_type_var(&mut self) -> (r: MonoType)
        ensures
            r@ == (SpecMono::Var { name: var_name(old(self).count() as nat) }),
            final(self).count() == wrap_inc(old(self).count()),
    {
        let mut name = String::new();
        push_char(&mut name, 't');
        push_digits(self.counter, &mut name);
        proof {
            assert(name@ =~= var_name(self.counter as nat));
        }
        if self.counter < u64::MAX {
            self.counter = self.counter + 1;
        } else {
            self.counter = 0;
        }
        MonoType::TyVar(name)
    }

    /// Restart naming from `t0`, for the next independent inference run.
    pub fn reset_tid(&mut self)
        ensures
            final(self).count() == 0,
    {
        self.counter = 0;
    }
}

// ---------------------------------------------------------------------------
// Unification
// ---------------------------------------------------------------------------

/// `m` unifies every pair of the worklist.
pub open spec fn pairs_unified(m: SpecSubst, w: Seq<(MonoType, MonoType)>) -> bool {
    forall|i: int| 0 <= i < w.len() ==> is_unifier(m, (#[trigger] w[i]).0@, w[i].1@)
}

/// The variables still at play: free somewhere in the worklist once the
/// running substitution is applied.
pub open spec fn work_vars(s: SpecSubst, w: Seq<(MonoType, MonoType)>) -> Set<Seq<char>>
    decreases w,
{
    if w.len() == 0 {
        Set::empty()
    } else {
        work_vars(s, w.drop_last()).union(
            ftv_mono(apply_ty(s, w.last().0@)).union(ftv_mono(apply_ty(s, w.last().1@))),
        )
    }
}

/// The total size of the worklist under the running substitution.
pub open spec fn work_size(s: SpecSubst, w: Seq<(MonoType, MonoType)>) -> nat
    decreases w,
{
    if w.len() == 0 {
        0
    } else {
        work_size(s, w.drop_last()) + size_ty(apply_ty(s, w.last().0@)) + size_ty(
            apply_ty(s, w.last().1@),
        )
    }
}

/// Membership in `work_vars`, pairwise.
proof fn lemma_work_vars_elem(s: SpecSubst, w: Seq<(MonoType, MonoType)>, v: Seq<char>)
    ensures
        work_vars(s, w).contains(v) <==> exists|i: int|
            0 <= i < w.len() && (ftv_mono(apply_ty(s, (#[trigger] w[i]).0@)).contains(v)
                || ftv_mono(apply_ty(s, w[i].1@)).contains(v)),
    decreases w,
{
    if w.len() > 0 {
        lemma_work_vars_elem(s, w.drop_last(), v);
        let shorter = w.drop_last();
        if work_vars(s, w).contains(v) {
            if work_vars(s, shorter).contains(v) {
                let i = choose|i: int|
                    0 <= i < shorter.len() && (ftv_mono(
                        apply_ty(s, (#[trigger] shorter[i]).0@),
                    ).contains(v) || ftv_mono(apply_ty(s, shorter[i].1@)).contains(v));
                assert(shorter[i] == w[i]);
                assert(ftv_mono(apply_ty(s, (w[i]).0@)).contains(v) || ftv_mono(
                    apply_ty(s, w[i].1@),
                ).contains(v));
            } else {
                let i = w.len() - 1;
                assert(w[i] == w.last());
                assert(ftv_mono(apply_ty(s, (w[i]).0@)).contains(v) || ftv_mono(
                    apply_ty(s, w[i].1@),
                ).contains(v));
            }
        }
        if exists|i: int|
            0 <= i < w.len() && (ftv_mono(apply_ty(s, (#[trigger] w[i]).0@)).contains(v)
                || ftv_mono(apply_ty(s, w[i].1@)).contains(v)) {
            let i = choose|i: int|
                0 <= i < w.len() && (ftv_mono(apply_ty(s, (#[trigger] w[i]).0@)).contains(v)
                    || ftv_mono(apply_ty(s, w[i].1@)).contains(v));
            if i < w.len() - 1 {
                assert(shorter[i] == w[i]);
                assert(ftv_mono(apply_ty(s, (shorter[i]).0@)).contains(v) || ftv_mono(
                    apply_ty(s, shorter[i].1@),
                ).contains(v));
            } else {
                assert(w[i] == w.last());
            }
        }
    }
}

/// The set of variables at play is finite.
proof fn lemma_work_vars_finite(s: SpecSubst, w: Seq<(MonoType, MonoType)>)
    ensures
        work_vars(s, w).finite(),
    decreases w,
{
    if w.len() > 0 {
        lemma_work_vars_finite(s, w.drop_last());
        lemma_ftv_finite(apply_ty(s, w.last().0@));
        lemma_ftv_finite(apply_ty(s, w.last().1@));
    }
}

/// Appending one type to a sequence adds its size.
proof fn lemma_size_seq_snoc(ts: Seq<SpecMono>, t: SpecMono)
    ensures
        size_seq(ts.push(t)) == size_seq(ts) + size_ty(t),
    decreases ts,
{
    if ts.len() == 0 {
        assert(ts.push(t).drop_first() =~= Seq::<SpecMono>::empty());
        assert(size_seq(ts.push(t).drop_first()) == 0);
        assert(ts.push(t)[0] == t);
    } else {
        lemma_size_seq_snoc(ts.drop_first(), t);
        assert(ts.push(t).drop_first() =~= ts.drop_first().push(t));
        assert(ts.push(t)[0] == ts[0]);
    }
}

/// Whether a type variable occurs free in a monomorphic type.
#[verifier::loop_isolation(false)]
pub fn contains(ty1: &MonoType, var: &String) -> (r: bool)
    ensures
        r == ftv_mono(ty1@).contains(var@),
    decreases size_ty(ty1@),
{
    match ty1 {
        MonoType::TyVar(tvar) => *tvar == *var,
        MonoType::TyApp(app) => {
            let ghost args = mono_seq_view(app.monotypes@);
            proof {
                lemma_mono_seq_view(app.monotypes@);
            }
            let n = app.monotypes.len();
            let mut i: usize = 0;
            while i < n
                invariant
                    i <= n,
                    forall|j: int| 0 <= j < i ==> !ftv_mono(#[trigger] args[j]).contains(var@),
                decreases n - i,
            {
                proof {
                    lemma_size_seq_element(args, i as int);
                }
                if contains(&app.monotypes[i], var) {
                    proof {
                        lemma_ftv_seq(args, var@);
                    }
                    return true;
                }
                i += 1;
            }
            proof {
                lemma_ftv_seq(args, var@);
            }
            false
        },
    }
}

/// Extend a solved-form substitution with one binding, after the occurs
/// check. The bound type must already be fully substituted.
fn bind_step(subst: Substitution, v: String, t: MonoType) -> (r: Result<Substitution, TypeError>)
    requires
        solved_form(subst@),
        forall|w: Seq<char>| #[trigger] ftv_mono(t@).contains(w) ==> !subst@.dom().contains(w),
    ensures
        match r {
            Ok(s2) => !ftv_mono(t@).contains(v@) && s2@ == compose_spec(
                subst@,
                Map::empty().insert(v@, t@),
            ) && solved_form(s2@),
            Err(e) => ftv_mono(t@).contains(v@) && (e matches TypeError::InfiniteType(ev, et)
                && ev@ == v@ && et@ == t@),
        },
{
    let ghost gv = v@;
    let ghost gt = t@;
    if contains(&t, &v) {
        return Err(TypeError::InfiniteType(v, t));
    }
    let mut entries: Vec<(String, MonoType)> = Vec::new();
    entries.push((v, t));
    let single = Substitution::from_map(entries);
    proof {
        assert(entries@.len() == 1);
        assert(entries@.last().0@ == gv && entries@.last().1@ == gt);
        assert(entries@.drop_last() =~= Seq::<(String, MonoType)>::empty());
        assert(subst_view_of(entries@.drop_last()) =~= Map::<Seq<char>, SpecMono>::empty());
        assert(single@ =~= Map::<Seq<char>, SpecMono>::empty().insert(gv, gt));
    }
    let result = subst.combine(single);
    proof {
        let composed = result@;
        assert forall|x: Seq<char>, w: Seq<char>|
            composed.dom().contains(x) && #[trigger] ftv_mono(composed[x]).contains(w) implies !composed.dom().contains(w) by {
            let g = Map::<Seq<char>, SpecMono>::empty().insert(gv, gt);
            if subst@.dom().contains(x) {
                assert(composed[x] == apply_ty(g, subst@[x]));
                lemma_ftv_apply(g, subst@[x], w);
                if ftv_mono(subst@[x]).contains(w) && !g.dom().contains(w) {
                    assert(!subst@.dom().contains(w));
                } else {
                    let k = choose|k: Seq<char>|
                        #[trigger] g.dom().contains(k) && ftv_mono(subst@[x]).contains(k)
                            && ftv_mono(g[k]).contains(w);
                    assert(ftv_mono(gt).contains(w));
                }
            } else {
                assert(composed[x] == gt);
            }
        }
    }
    Ok(result)
}

/// `m` subsumes the starting substitution and unifies every seeded pair.
pub open spec fn seeds_unified(m: SpecSubst, s0: SpecSubst, w0: Seq<(MonoType, MonoType)>) -> bool {
    absorbs(m, s0) && pairs_unified(m, w0)
}

/// The shape each unification error takes: a constructor mismatch names two
/// different constructors, an arity mismatch holds two applications of
/// different argument counts, an infinite type holds a variable occurring
/// in the reported type.
pub open spec fn unify_err_shape(e: SpecErr) -> bool {
    match e {
        SpecErr::Undefined { name } => false,
        SpecErr::CtorMismatch { c1, c2 } => c1 != c2,
        SpecErr::ArityMismatch { t1, t2 } => t1 is App && t2 is App && t1->App_args.len()
            != t2->App_args.len(),
        SpecErr::Infinite { var, ty } => ty is App && ftv_mono(ty).contains(var),
    }
}

/// Unify every seeded pair, threading a running substitution that starts at
/// `start`. On success the result unifies every pair and subsumes nothing
/// less than any other such substitution; on failure no extension of
/// `start` unifies them all.
#[verifier::loop_isolation(false)]
#[verifier::rlimit(100)]
fn unify_pairs(pairs: Vec<(MonoType, MonoType)>, start: Substitution) -> (r: Result<
    Substitution,
    TypeError,
>)
    requires
        solved_form(start@),
    ensures
        match r {
            Ok(s) => solved_form(s@) && pairs_unified(s@, pairs@) && (forall|m: SpecSubst|
                #[trigger] seeds_unified(m, start@, pairs@) ==> absorbs(m, s@)),
            Err(e) => (forall|m: SpecSubst| !(#[trigger] seeds_unified(m, start@, pairs@)))
                && unify_err_shape(e@),
        },
{
    let ghost s0 = start@;
    let ghost w0 = pairs@;
    let mut subst = start;
    let mut work = pairs;
    loop
        invariant
            solved_form(subst@),
            forall|m: SpecSubst|
                #[trigger] seeds_unified(m, s0, w0) ==> absorbs(m, subst@) && pairs_unified(m, work@),
            forall|d: SpecSubst|
                #[trigger] pairs_unified(compose_spec(subst@, d), work@) ==> pairs_unified(
                    compose_spec(subst@, d),
                    w0,
                ),
        decreases work_vars(subst@, work@).len(), work_size(subst@, work@),
    {
        let ghost w_old = work@;
        let ghost s_old = subst@;
        let pair = match work.pop() {
            Some(p) => p,
            None => {
                proof {
                    lemma_compose_empty_right(subst@);
                    assert(pairs_unified(compose_spec(subst@, Map::empty()), w_old));
                }
                return Ok(subst);
            },
        };
        let ghost p0 = pair.0@;
        let ghost p1 = pair.1@;
        let (pa, pb) = pair;
        let a = pa.apply(&subst);
        let b = pb.apply(&subst);
        let ghost ga = a@;
        let ghost gb = b@;
        proof {
            assert(w_old.last().0@ == p0 && w_old.last().1@ == p1);
            // Any unifier of the goal unifies the substituted pair.
            assert forall|m: SpecSubst| #[trigger] seeds_unified(m, s0, w0) implies apply_ty(m, ga)
                == apply_ty(m, gb) by {
                assert(is_unifier(m, p0, p1));
                assert(apply_ty(m, apply_ty(subst@, p0)) == apply_ty(m, p0));
                assert(apply_ty(m, apply_ty(subst@, p1)) == apply_ty(m, p1));
            }
            // Both sides are fully substituted.
            lemma_solved_form_clears(subst@, p0);
            lemma_solved_form_clears(subst@, p1);
            // Facts for the termination measure.
            assert(w_old.drop_last() =~= work@);
            assert(work_vars(s_old, w_old) == work_vars(s_old, work@).union(
                ftv_mono(ga).union(ftv_mono(gb)),
            ));
            assert(work_size(s_old, w_old) == work_size(s_old, work@) + size_ty(ga) + size_ty(gb));
            lemma_work_vars_finite(s_old, w_old);
            lemma_size_pos(ga);
            lemma_size_pos(gb);
        }
        match a {
            MonoType::TyVar(va) => {
                let same = match &b {
                    MonoType::TyVar(vb) => va == *vb,
                    _ => false,
                };
                if same {
                    proof {
                        assert(ga == gb);
                        assert forall|m: SpecSubst| #[trigger] seeds_unified(m, s0, w0) implies absorbs(
                            m,
                            subst@,
                        ) && pairs_unified(m, work@) by {
                            assert(forall|i: int|
                                0 <= i < work@.len() ==> work@[i] == w_old[i]);
                        }
                        assert forall|d: SpecSubst|
                            #[trigger] pairs_unified(compose_spec(subst@, d), work@) implies pairs_unified(
                            compose_spec(subst@, d),
                            w0,
                        ) by {
                            let s = compose_spec(subst@, d);
                            lemma_apply_compose(subst@, d, p0);
                            lemma_apply_compose(subst@, d, p1);
                            assert(apply_ty(s, p0) == apply_ty(d, ga));
                            assert(apply_ty(s, p1) == apply_ty(d, gb));
                            assert(is_unifier(s, p0, p1));
                            assert forall|i: int| 0 <= i < w_old.len() implies is_unifier(
                                s,
                                (#[trigger] w_old[i]).0@,
                                w_old[i].1@,
                            ) by {
                                if i < w_old.len() - 1 {
                                    assert(w_old.drop_last()[i] == w_old[i]);
                                    assert(work@[i] == w_old[i]);
                                    assert(is_unifier(s, (work@[i]).0@, work@[i].1@));
                                } else {
                                    assert(w_old[i] == w_old.last());
                                }
                            }
                            assert(pairs_unified(s, w_old));
                        }
                        assert(work_vars(s_old, work@).subset_of(work_vars(s_old, w_old)));
                        vstd::set_lib::lemma_len_subset(
                            work_vars(s_old, work@),
                            work_vars(s_old, w_old),
                        );
                    }
                } else {
                    let ghost gvar = va@;
                    match bind_step(subst, va, b) {
                        Ok(s2) => {
                            proof {
                                let g = Map::<Seq<char>, SpecMono>::empty().insert(gvar, gb);
                                assert(ga == SpecMono::Var { name: gvar });
                                assert forall|m: SpecSubst|
                                    #[trigger] seeds_unified(m, s0, w0) implies absorbs(m, s2@)
                                    && pairs_unified(m, work@) by {
                                    assert(apply_ty(m, ga) == apply_ty(m, gb));
                                    assert forall|u: SpecMono|
                                        apply_ty(m, #[trigger] apply_ty(g, u)) == apply_ty(
                                        m,
                                        u,
                                    ) by {
                                        lemma_single_absorbed(m, gvar, gb, u);
                                    }
                                    lemma_absorbs_compose(m, subst@, g);
                                    assert(forall|i: int|
                                        0 <= i < work@.len() ==> work@[i] == w_old[i]);
                                }
                                assert forall|d: SpecSubst|
                                    #[trigger] pairs_unified(compose_spec(s2@, d), work@) implies pairs_unified(
                                    compose_spec(s2@, d),
                                    w0,
                                ) by {
                                    let dd = compose_spec(g, d);
                                    lemma_compose_assoc(subst@, g, d);
                                    let s = compose_spec(subst@, dd);
                                    assert(s == compose_spec(s2@, d));
                                    lemma_apply_compose(subst@, dd, p0);
                                    lemma_apply_compose(subst@, dd, p1);
                                    lemma_apply_compose(g, d, ga);
                                    lemma_apply_compose(g, d, gb);
                                    lemma_apply_disjoint(g, gb);
                                    assert(apply_ty(g, ga) == gb);
                                    assert(apply_ty(s, p0) == apply_ty(dd, ga));
                                    assert(apply_ty(s, p1) == apply_ty(dd, gb));
                                    assert(apply_ty(dd, ga) == apply_ty(d, gb));
                                    assert(apply_ty(dd, gb) == apply_ty(d, gb));
                                    assert(is_unifier(s, p0, p1));
                                    assert forall|i: int| 0 <= i < w_old.len() implies is_unifier(
                                        s,
                                        (#[trigger] w_old[i]).0@,
                                        w_old[i].1@,
                                    ) by {
                                        if i < w_old.len() - 1 {
                                            assert(w_old.drop_last()[i] == w_old[i]);
                                            assert(work@[i] == w_old[i]);
                                            assert(is_unifier(s, (work@[i]).0@, work@[i].1@));
                                        } else {
                                            assert(w_old[i] == w_old.last());
                                        }
                                    }
                                    assert(pairs_unified(s, w_old));
                                }
                                // Termination: the bound variable leaves play.
                                let old_set = work_vars(s_old, w_old);
                                let new_set = work_vars(s2@, work@);
                                assert forall|v: Seq<char>| new_set.contains(v) implies old_set.remove(
                                    gvar,
                                ).contains(v) by {
                                    lemma_work_vars_elem(s2@, work@, v);
                                    let i = choose|i: int|
                                        0 <= i < work@.len() && (ftv_mono(
                                            apply_ty(s2@, (#[trigger] work@[i]).0@),
                                        ).contains(v) || ftv_mono(
                                            apply_ty(s2@, work@[i].1@),
                                        ).contains(v));
                                    assert(work@[i] == w_old[i]);
                                    lemma_apply_compose(s_old, g, w_old[i].0@);
                                    lemma_apply_compose(s_old, g, w_old[i].1@);
                                    lemma_work_vars_elem(s_old, w_old, v);
                                    if ftv_mono(apply_ty(s2@, w_old[i].0@)).contains(v) {
                                        lemma_ftv_single_apply(
                                            gvar,
                                            gb,
                                            apply_ty(s_old, w_old[i].0@),
                                            v,
                                        );
                                    } else {
                                        lemma_ftv_single_apply(
                                            gvar,
                                            gb,
                                            apply_ty(s_old, w_old[i].1@),
                                            v,
                                        );
                                    }
                                    if !(ftv_mono(apply_ty(s_old, w_old[i].0@)).contains(v)
                                        || ftv_mono(apply_ty(s_old, w_old[i].1@)).contains(v)) {
                                        assert(ftv_mono(gb).contains(v));
                                        assert(w_old[w_old.len() - 1] == w_old.last());
                                        assert(ftv_mono(
                                            apply_ty(s_old, w_old.last().1@),
                                        ).contains(v));
                                    }
                                    assert(old_set.contains(v));
                                }
                                assert(old_set.contains(gvar)) by {
                                    lemma_work_vars_elem(s_old, w_old, gvar);
                                    assert(ftv_mono(ga).contains(gvar));
                                    assert(w_old[w_old.len() - 1] == w_old.last());
                                    assert(ftv_mono(apply_ty(s_old, w_old.last().0@)).contains(
                                        gvar,
                                    ));
                                }
                                vstd::set::axiom_set_remove_finite(old_set, gvar);
                                vstd::set::axiom_set_remove_len(old_set, gvar);
                                vstd::set_lib::lemma_len_subset(new_set, old_set.remove(gvar));
                                assert(new_set.len() < old_set.len());
                            }
                            subst = s2;
                        },
                        Err(e) => {
                            proof {
                                assert(gb is App) by {
                                    if gb is Var {
                                        assert(ftv_mono(gb).contains(gvar));
                                    }
                                }
                                lemma_occurs_no_unifier(gvar, gb);
                                assert forall|m: SpecSubst| !seeds_unified(m, s0, w0) by {
                                    if seeds_unified(m, s0, w0) {
                                        assert(apply_ty(m, ga) == apply_ty(m, gb));
                                        assert(is_unifier(m, SpecMono::Var { name: gvar }, gb));
                                    }
                                }
                            }
                            return Err(e);
                        },
                    }
                }
            },
            MonoType::TyApp(appa) => {
                match b {
                    MonoType::TyVar(vb) => {
                        let ghost gvar = vb@;
                        match bind_step(subst, vb, MonoType::TyApp(appa)) {
                            Ok(s2) => {
                                proof {
                                    let g = Map::<Seq<char>, SpecMono>::empty().insert(gvar, ga);
                                    assert(gb == SpecMono::Var { name: gvar });
                                    assert forall|m: SpecSubst|
                                        #[trigger] seeds_unified(m, s0, w0) implies absorbs(m, s2@)
                                        && pairs_unified(m, work@) by {
                                        assert(apply_ty(m, ga) == apply_ty(m, gb));
                                        assert forall|u: SpecMono|
                                            apply_ty(m, #[trigger] apply_ty(g, u)) == apply_ty(
                                            m,
                                            u,
                                        ) by {
                                            lemma_single_absorbed(m, gvar, ga, u);
                                        }
                                        lemma_absorbs_compose(m, subst@, g);
                                        assert(forall|i: int|
                                            0 <= i < work@.len() ==> work@[i] == w_old[i]);
                                    }
                                    assert forall|d: SpecSubst|
                                        #[trigger] pairs_unified(compose_spec(s2@, d), work@) implies pairs_unified(
                                        compose_spec(s2@, d),
                                        w0,
                                    ) by {
                                        let dd = compose_spec(g, d);
                                        lemma_compose_assoc(subst@, g, d);
                                        let s = compose_spec(subst@, dd);
                                        assert(s == compose_spec(s2@, d));
                                        lemma_apply_compose(subst@, dd, p0);
                                        lemma_apply_compose(subst@, dd, p1);
                                        lemma_apply_compose(g, d, ga);
                                        lemma_apply_compose(g, d, gb);
                                        lemma_apply_disjoint(g, ga);
                                        assert(apply_ty(g, gb) == ga);
                                        assert(apply_ty(s, p0) == apply_ty(dd, ga));
                                        assert(apply_ty(s, p1) == apply_ty(dd, gb));
                                        assert(apply_ty(dd, gb) == apply_ty(d, ga));
                                        assert(apply_ty(dd, ga) == apply_ty(d, ga));
                                        assert(is_unifier(s, p0, p1));
                                        assert forall|i: int| 0 <= i < w_old.len() implies is_unifier(
                                            s,
                                            (#[trigger] w_old[i]).0@,
                                            w_old[i].1@,
                                        ) by {
                                            if i < w_old.len() - 1 {
                                                assert(w_old.drop_last()[i] == w_old[i]);
                                                assert(work@[i] == w_old[i]);
                                                assert(is_unifier(s, (work@[i]).0@, work@[i].1@));
                                            } else {
                                                assert(w_old[i] == w_old.last());
                                            }
                                        }
                                        assert(pairs_unified(s, w_old));
                                    }
                                    // Termination: the bound variable leaves play.
                                    let old_set = work_vars(s_old, w_old);
                                    let new_set = work_vars(s2@, work@);
                                    assert forall|v: Seq<char>| new_set.contains(v) implies old_set.remove(
                                        gvar,
                                    ).contains(v) by {
                                        lemma_work_vars_elem(s2@, work@, v);
                                        let i = choose|i: int|
                                            0 <= i < work@.len() && (ftv_mono(
                                                apply_ty(s2@, (#[trigger] work@[i]).0@),
                                            ).contains(v) || ftv_mono(
                                                apply_ty(s2@, work@[i].1@),
                                            ).contains(v));
                                        assert(work@[i] == w_old[i]);
                                        lemma_apply_compose(s_old, g, w_old[i].0@);
                                        lemma_apply_compose(s_old, g, w_old[i].1@);
                                        lemma_work_vars_elem(s_old, w_old, v);
                                        if ftv_mono(apply_ty(s2@, w_old[i].0@)).contains(v) {
                                            lemma_ftv_single_apply(
                                                gvar,
                                                ga,
                                                apply_ty(s_old, w_old[i].0@),
                                                v,
                                            );
                                        } else {
                                            lemma_ftv_single_apply(
                                                gvar,
                                                ga,
                                                apply_ty(s_old, w_old[i].1@),
                                                v,
                                            );
                                        }
                                        if !(ftv_mono(apply_ty(s_old, w_old[i].0@)).contains(v)
                                            || ftv_mono(apply_ty(s_old, w_old[i].1@)).contains(
                                            v,
                                        )) {
                                            assert(ftv_mono(ga).contains(v));
                                            assert(w_old[w_old.len() - 1] == w_old.last());
                                            assert(ftv_mono(
                                                apply_ty(s_old, w_old.last().0@),
                                            ).contains(v));
                                        }
                                        assert(old_set.contains(v));
                                    }
                                    assert(old_set.contains(gvar)) by {
                                        lemma_work_vars_elem(s_old, w_old, gvar);
                                        assert(ftv_mono(gb).contains(gvar));
                                        assert(w_old[w_old.len() - 1] == w_old.last());
                                        assert(ftv_mono(apply_ty(s_old, w_old.last().1@)).contains(
                                            gvar,
                                        ));
                                    }
                                    vstd::set::axiom_set_remove_finite(old_set, gvar);
                                    vstd::set::axiom_set_remove_len(old_set, gvar);
                                    vstd::set_lib::lemma_len_subset(new_set, old_set.remove(gvar));
                                    assert(new_set.len() < old_set.len());
                                }
                                subst = s2;
                            },
                            Err(e) => {
                                proof {
                                    lemma_occurs_no_unifier(gvar, ga);
                                    assert forall|m: SpecSubst| !seeds_unified(m, s0, w0) by {
                                        if seeds_unified(m, s0, w0) {
                                            assert(apply_ty(m, ga) == apply_ty(m, gb));
                                            assert(is_unifier(
                                                m,
                                                SpecMono::Var { name: gvar },
                                                ga,
                                            ));
                                        }
                                    }
                                }
                                return Err(e);
                            },
                        }
                    },
                    MonoType::TyApp(appb) => {
                        let ghost argsa = mono_seq_view(appa.monotypes@);
                        let ghost argsb = mono_seq_view(appb.monotypes@);
                        proof {
                            lemma_mono_seq_view(appa.monotypes@);
                            lemma_mono_seq_view(appb.monotypes@);
                            assert(ga == SpecMono::App { ctor: appa.func@, args: argsa });
                            assert(gb == SpecMono::App { ctor: appb.func@, args: argsb });
                        }
                        if appa.func != appb.func {
                            proof {
                                assert forall|m: SpecSubst| !seeds_unified(m, s0, w0) by {
                                    if seeds_unified(m, s0, w0) {
                                        assert(apply_ty(m, ga) == apply_ty(m, gb));
                                    }
                                }
                            }
                            return Err(TypeError::MismatchedConstructor(appa.func, appb.func));
                        }
                        if appa.monotypes.len() != appb.monotypes.len() {
                            proof {
                                assert forall|m: SpecSubst| !seeds_unified(m, s0, w0) by {
                                    if seeds_unified(m, s0, w0) {
                                        assert(apply_ty(m, ga) == apply_ty(m, gb));
                                        lemma_apply_seq(m, argsa);
                                        lemma_apply_seq(m, argsb);
                                    }
                                }
                            }
                            return Err(TypeError::MismatchedArity(
                                MonoType::TyApp(appa),
                                MonoType::TyApp(appb),
                            ));
                        }
                        proof {
                            // Subterms of substituted types are untouched by the
                            // running substitution.
                            assert forall|j: int| 0 <= j < argsa.len() implies apply_ty(
                                subst@,
                                #[trigger] argsa[j],
                            ) == argsa[j] && apply_ty(subst@, argsb[j]) == argsb[j] by {
                                assert forall|w: Seq<char>|
                                    #[trigger] ftv_mono(argsa[j]).contains(w) implies !subst@.dom().contains(w) by {
                                    lemma_ftv_seq(argsa, w);
                                    assert(ftv_mono(ga).contains(w));
                                }
                                assert forall|w: Seq<char>|
                                    #[trigger] ftv_mono(argsb[j]).contains(w) implies !subst@.dom().contains(w) by {
                                    lemma_ftv_seq(argsb, w);
                                    assert(ftv_mono(gb).contains(w));
                                }
                                lemma_apply_disjoint(subst@, argsa[j]);
                                lemma_apply_disjoint(subst@, argsb[j]);
                            }
                        }
                        let ghost w_base = work@;
                        let n = appa.monotypes.len();
                        let mut i: usize = 0;
                        while i < n
                            invariant
                                i <= n,
                                work@.len() == w_base.len() + i,
                                forall|j: int| 0 <= j < w_base.len() ==> work@[j] == w_base[j],
                                forall|j: int|
                                    0 <= j < i ==> (#[trigger] work@[w_base.len() + j]).0@
                                        == argsa[j] && work@[w_base.len() + j].1@ == argsb[j],
                                work_size(s_old, work@) == work_size(s_old, w_base) + size_seq(
                                    argsa.take(i as int),
                                ) + size_seq(argsb.take(i as int)),
                            decreases n - i,
                        {
                            let x = appa.monotypes[i].clone();
                            let y = appb.monotypes[i].clone();
                            let ghost w_prev = work@;
                            work.push((x, y));
                            i += 1;
                            proof {
                                assert(work@.drop_last() =~= w_prev);
                                assert(work@.last().0@ == argsa[i - 1] && work@.last().1@ == argsb[
                                    i - 1
                                ]);
                                lemma_size_seq_snoc(argsa.take(i - 1), argsa[i - 1]);
                                lemma_size_seq_snoc(argsb.take(i - 1), argsb[i - 1]);
                                assert(argsa.take(i as int) =~= argsa.take(i - 1).push(
                                    argsa[i - 1],
                                ));
                                assert(argsb.take(i as int) =~= argsb.take(i - 1).push(
                                    argsb[i - 1],
                                ));
                            }
                        }
                        proof {
                            // Termination: the worklist shrank by two nodes and
                            // no new variable appeared.
                            assert(argsa.take(n as int) =~= argsa);
                            assert(argsb.take(n as int) =~= argsb);
                            assert(size_ty(ga) == 1 + size_seq(argsa));
                            assert(size_ty(gb) == 1 + size_seq(argsb));
                            assert(work_size(s_old, work@) < work_size(s_old, w_old));
                            assert forall|v: Seq<char>|
                                work_vars(s_old, work@).contains(v) implies work_vars(
                                s_old,
                                w_old,
                            ).contains(v) by {
                                lemma_work_vars_elem(s_old, work@, v);
                                lemma_work_vars_elem(s_old, w_old, v);
                                let i2 = choose|i2: int|
                                    0 <= i2 < work@.len() && (ftv_mono(
                                        apply_ty(s_old, (#[trigger] work@[i2]).0@),
                                    ).contains(v) || ftv_mono(
                                        apply_ty(s_old, work@[i2].1@),
                                    ).contains(v));
                                if i2 < w_base.len() {
                                    assert(work@[i2] == w_base[i2]);
                                    assert(w_old.drop_last()[i2] == w_old[i2]);
                                    assert(w_base[i2] == w_old[i2]);
                                } else {
                                    let jj = i2 - w_base.len();
                                    assert((work@[w_base.len() + jj]).0@ == argsa[jj] && work@[
                                        w_base.len() + jj
                                    ].1@ == argsb[jj]);
                                    assert(apply_ty(s_old, argsa[jj]) == argsa[jj]);
                                    assert(apply_ty(s_old, argsb[jj]) == argsb[jj]);
                                    lemma_ftv_seq(argsa, v);
                                    lemma_ftv_seq(argsb, v);
                                    assert(ftv_mono(argsa[jj]).contains(v) || ftv_mono(
                                        argsb[jj],
                                    ).contains(v));
                                    assert(ftv_mono(ga).contains(v) || ftv_mono(gb).contains(v));
                                    assert(w_old[w_old.len() - 1] == w_old.last());
                                }
                            }
                            vstd::set_lib::lemma_len_subset(
                                work_vars(s_old, work@),
                                work_vars(s_old, w_old),
                            );
                            assert forall|m: SpecSubst|
                                #[trigger] seeds_unified(m, s0, w0) implies absorbs(m, subst@)
                                && pairs_unified(m, work@) by {
                                assert(apply_ty(m, ga) == apply_ty(m, gb));
                                lemma_apply_seq(m, argsa);
                                lemma_apply_seq(m, argsb);
                                assert forall|j: int| 0 <= j < work@.len() implies is_unifier(
                                    m,
                                    (#[trigger] work@[j]).0@,
                                    work@[j].1@,
                                ) by {
                                    if j < w_base.len() {
                                        assert(pairs_unified(m, w_old));
                                        assert(work@[j] == w_base[j]);
                                        assert(w_old.drop_last()[j] == w_old[j]);
                                        assert(work@[j] == w_old[j]);
                                        assert(is_unifier(m, (w_old[j]).0@, w_old[j].1@));
                                    } else {
                                        let jj = j - w_base.len();
                                        assert((work@[w_base.len() + jj]).0@ == argsa[jj] && work@[
                                            w_base.len() + jj
                                        ].1@ == argsb[jj]);
                                        assert(apply_seq(m, argsa)[jj] == apply_ty(m, argsa[jj]));
                                        assert(apply_seq(m, argsb)[jj] == apply_ty(m, argsb[jj]));
                                        assert(apply_seq(m, argsa)[jj] == apply_seq(m, argsb)[jj]);
                                    }
                                }
                            }
                            assert forall|d: SpecSubst|
                                #[trigger] pairs_unified(compose_spec(subst@, d), work@) implies pairs_unified(
                                compose_spec(subst@, d),
                                w0,
                            ) by {
                                let s = compose_spec(subst@, d);
                                assert forall|j: int| 0 <= j < n implies apply_ty(
                                    d,
                                    #[trigger] argsa[j],
                                ) == apply_ty(d, argsb[j]) by {
                                    assert(work@[w_base.len() + j].0@ == argsa[j]);
                                    assert(is_unifier(
                                        s,
                                        work@[w_base.len() + j].0@,
                                        work@[w_base.len() + j].1@,
                                    ));
                                    lemma_apply_compose(subst@, d, argsa[j]);
                                    lemma_apply_compose(subst@, d, argsb[j]);
                                }
                                lemma_apply_seq(d, argsa);
                                lemma_apply_seq(d, argsb);
                                assert forall|j: int| 0 <= j < n implies apply_seq(d, argsa)[j]
                                    == apply_seq(d, argsb)[j] by {
                                    assert(apply_seq(d, argsa)[j] == apply_ty(d, argsa[j]));
                                    assert(apply_seq(d, argsb)[j] == apply_ty(d, argsb[j]));
                                }
                                assert(apply_seq(d, argsa) =~= apply_seq(d, argsb));
                                assert(apply_ty(d, ga) == apply_ty(d, gb));
                                lemma_apply_compose(subst@, d, p0);
                                lemma_apply_compose(subst@, d, p1);
                                assert(apply_ty(s, p0) == apply_ty(d, ga));
                                assert(apply_ty(s, p1) == apply_ty(d, gb));
                                assert(is_unifier(s, p0, p1));
                                assert forall|i: int| 0 <= i < w_old.len() implies is_unifier(
                                    s,
                                    (#[trigger] w_old[i]).0@,
                                    w_old[i].1@,
                                ) by {
                                    if i < w_old.len() - 1 {
                                        assert(work@[i] == w_base[i]);
                                        assert(w_old.drop_last()[i] == w_old[i]);
                                        assert(w_base[i] == w_old[i]);
                                        assert(is_unifier(s, (work@[i]).0@, work@[i].1@));
                                    } else {
                                        assert(w_old[i] == w_old.last());
                                    }
                                }
                                assert(pairs_unified(s, w_old));
                            }
                        }
                    },
                }
            },
        }
    }
}

/// Compute the most general substitution making two monomorphic types
/// syntactically equal, or report why none exists.
///
/// The algorithm is determined by the outermost shapes: two identical type
/// variables unify to the identity substitution; a variable against any
/// other type binds exactly that variable to that type, or fails the occurs
/// check with an infinite-type error naming both, and the case with the
/// variable on the right is symmetric; two type applications fail with the
/// two constructor names when those differ, with the two types when their
/// arities differ, and otherwise unify their arguments pairwise. On success
/// the result is a most general unifier: it unifies the two types and every
/// other unifier subsumes it. On failure no substitution at all unifies the
/// two types.
pub fn unify(ty1: MonoType, ty2: MonoType) -> (r: Result<Substitution, TypeError>)
    ensures
        match r {
            Ok(s) => is_unifier(s@, ty1@, ty2@) && solved_form(s@) && (forall|m: SpecSubst|
                #[trigger] is_unifier(m, ty1@, ty2@) ==> absorbs(m, s@)),
            Err(e) => (forall|m: SpecSubst| !is_unifier(m, ty1@, ty2@)) && unify_err_shape(e@),
        },
        ty1@ is Var && ty2@ == ty1@ ==> (r matches Ok(s) && s@ == Map::<Seq<char>, SpecMono>::empty()),
        ty1@ is Var && ty2@ != ty1@ && !ftv_mono(ty2@).contains(ty1@->Var_name) ==> (r matches Ok(s)
            && s@ == Map::<Seq<char>, SpecMono>::empty().insert(ty1@->Var_name, ty2@)),
        ty1@ is Var && ty2@ != ty1@ && ftv_mono(ty2@).contains(ty1@->Var_name) ==> (r matches Err(e)
            && e@ == (SpecErr::Infinite { var: ty1@->Var_name, ty: ty2@ })),
        ty1@ is App && ty2@ is Var && !ftv_mono(ty1@).contains(ty2@->Var_name) ==> (r matches Ok(s)
            && s@ == Map::<Seq<char>, SpecMono>::empty().insert(ty2@->Var_name, ty1@)),
        ty1@ is App && ty2@ is Var && ftv_mono(ty1@).contains(ty2@->Var_name) ==> (r matches Err(e)
            && e@ == (SpecErr::Infinite { var: ty2@->Var_name, ty: ty1@ })),
        ty1@ is App && ty2@ is App && ty1@->App_ctor != ty2@->App_ctor ==> (r matches Err(e) && e@
            == (SpecErr::CtorMismatch { c1: ty1@->App_ctor, c2: ty2@->App_ctor })),
        ty1@ is App && ty2@ is App && ty1@->App_ctor == ty2@->App_ctor && ty1@->App_args.len()
            != ty2@->App_args.len() ==> (r matches Err(e) && e@ == (SpecErr::ArityMismatch {
            t1: ty1@,
            t2: ty2@,
        })),
{
    let ghost g1 = ty1@;
    let ghost g2 = ty2@;
    match ty1 {
        MonoType::TyVar(v1) => {
            let same = match &ty2 {
                MonoType::TyVar(v2) => v1 == *v2,
                _ => false,
            };
            if same {
                proof {
                    assert(g1 == g2);
                    assert forall|m: SpecSubst| #[trigger] is_unifier(m, g1, g2) implies absorbs(
                        m,
                        Map::<Seq<char>, SpecMono>::empty(),
                    ) by {
                        lemma_absorbs_empty(m);
                    }
                }
                Ok(Substitution::empty())
            } else {
                let ghost gvar = v1@;
                proof {
                    assert(g2 != g1);
                }
                match bind_step(Substitution::empty(), v1, ty2) {
                    Ok(s) => {
                        proof {
                            let single = Map::<Seq<char>, SpecMono>::empty().insert(gvar, g2);
                            lemma_compose_empty_left(single);
                            assert(s@ == single);
                            lemma_apply_disjoint(single, g2);
                            assert(is_unifier(s@, g1, g2));
                            assert forall|m: SpecSubst| #[trigger] is_unifier(m, g1, g2) implies absorbs(
                                m,
                                s@,
                            ) by {
                                assert forall|u: SpecMono|
                                    apply_ty(m, #[trigger] apply_ty(single, u)) == apply_ty(
                                    m,
                                    u,
                                ) by {
                                    lemma_single_absorbed(m, gvar, g2, u);
                                }
                            }
                        }
                        Ok(s)
                    },
                    Err(e) => {
                        proof {
                            assert(g2 is App) by {
                                if g2 is Var {
                                    assert(ftv_mono(g2).contains(gvar));
                                }
                            }
                            lemma_occurs_no_unifier(gvar, g2);
                            assert(forall|m: SpecSubst| !is_unifier(m, g1, g2));
                        }
                        Err(e)
                    },
                }
            }
        },
        MonoType::TyApp(a1) => {
            match ty2 {
                MonoType::TyVar(v2) => {
                    let ghost gvar = v2@;
                    match bind_step(Substitution::empty(), v2, MonoType::TyApp(a1)) {
                        Ok(s) => {
                            proof {
                                let single = Map::<Seq<char>, SpecMono>::empty().insert(gvar, g1);
                                lemma_compose_empty_left(single);
                                assert(s@ == single);
                                lemma_apply_disjoint(single, g1);
                                assert(is_unifier(s@, g1, g2));
                                assert forall|m: SpecSubst|
                                    #[trigger] is_unifier(m, g1, g2) implies absorbs(m, s@) by {
                                    assert(is_unifier(m, g2, g1));
                                    assert forall|u: SpecMono|
                                        apply_ty(m, #[trigger] apply_ty(single, u)) == apply_ty(
                                        m,
                                        u,
                                    ) by {
                                        lemma_single_absorbed(m, gvar, g1, u);
                                    }
                                }
                            }
                            Ok(s)
                        },
                        Err(e) => {
                            proof {
                                lemma_occurs_no_unifier(gvar, g1);
                                assert forall|m: SpecSubst| !is_unifier(m, g1, g2) by {
                                    if is_unifier(m, g1, g2) {
                                        assert(is_unifier(m, g2, g1));
                                    }
                                }
                            }
                            Err(e)
                        },
                    }
                },
                MonoType::TyApp(a2) => {
                    let ghost argsa = mono_seq_view(a1.monotypes@);
                    let ghost argsb = mono_seq_view(a2.monotypes@);
                    proof {
                        lemma_mono_seq_view(a1.monotypes@);
                        lemma_mono_seq_view(a2.monotypes@);
                        assert(g1 == (SpecMono::App { ctor: a1.func@, args: argsa }));
                        assert(g2 == (SpecMono::App { ctor: a2.func@, args: argsb }));
                    }
                    if a1.func != a2.func {
                        proof {
                            lemma_ctor_mismatch_no_unifier(g1, g2);
                        }
                        return Err(TypeError::MismatchedConstructor(a1.func, a2.func));
                    }
                    if a1.monotypes.len() != a2.monotypes.len() {
                        proof {
                            lemma_arity_mismatch_no_unifier(g1, g2);
                        }
                        return Err(TypeError::MismatchedArity(
                            MonoType::TyApp(a1),
                            MonoType::TyApp(a2),
                        ));
                    }
                    let n = a1.monotypes.len();
                    let mut work: Vec<(MonoType, MonoType)> = Vec::new();
                    let mut i: usize = 0;
                    #[verifier::loop_isolation(false)]
                    while i < n
                        invariant
                            i <= n,
                            work@.len() == i,
                            forall|j: int|
                                0 <= j < i ==> (#[trigger] work@[j]).0@ == argsa[j]
                                    && work@[j].1@ == argsb[j],
                        decreases n - i,
                    {
                        let x = a1.monotypes[i].clone();
                        let y = a2.monotypes[i].clone();
                        work.push((x, y));
                        i += 1;
                    }
                    let ghost w0 = work@;
                    let r = unify_pairs(work, Substitution::empty());
                    proof {
                        if r is Ok {
                            let s = r->Ok_0;
                            assert forall|j: int| 0 <= j < n implies apply_ty(
                                s@,
                                #[trigger] argsa[j],
                            ) == apply_ty(s@, argsb[j]) by {
                                assert(is_unifier(s@, (w0[j]).0@, w0[j].1@));
                            }
                            lemma_apply_seq(s@, argsa);
                            lemma_apply_seq(s@, argsb);
                            assert forall|j: int| 0 <= j < n implies apply_seq(s@, argsa)[j]
                                == apply_seq(s@, argsb)[j] by {
                                assert(apply_seq(s@, argsa)[j] == apply_ty(s@, argsa[j]));
                                assert(apply_seq(s@, argsb)[j] == apply_ty(s@, argsb[j]));
                            }
                            assert(apply_seq(s@, argsa) =~= apply_seq(s@, argsb));
                            assert(is_unifier(s@, g1, g2));
                            assert forall|m: SpecSubst| #[trigger] is_unifier(m, g1, g2) implies absorbs(
                                m,
                                s@,
                            ) by {
                                lemma_absorbs_empty(m);
                                lemma_apply_seq(m, argsa);
                                lemma_apply_seq(m, argsb);
                                assert forall|j: int| 0 <= j < w0.len() implies is_unifier(
                                    m,
                                    (#[trigger] w0[j]).0@,
                                    w0[j].1@,
                                ) by {
                                    assert(apply_seq(m, argsa)[j] == apply_seq(m, argsb)[j]);
                                }
                                assert(pairs_unified(m, w0));
                                assert(seeds_unified(m, Map::<Seq<char>, SpecMono>::empty(), w0));
                            }
                        } else {
                            let e = r->Err_0;
                            assert forall|m: SpecSubst| !is_unifier(m, g1, g2) by {
                                if is_unifier(m, g1, g2) {
                                    lemma_absorbs_empty(m);
                                    lemma_apply_seq(m, argsa);
                                    lemma_apply_seq(m, argsb);
                                    assert forall|j: int| 0 <= j < w0.len() implies is_unifier(
                                        m,
                                        (#[trigger] w0[j]).0@,
                                        w0[j].1@,
                                    ) by {
                                        assert(apply_seq(m, argsa)[j] == apply_seq(m, argsb)[j]);
                                    }
                                    assert(pairs_unified(m, w0));
                                    assert(seeds_unified(
                                        m,
                                        Map::<Seq<char>, SpecMono>::empty(),
                                        w0,
                                    ));
                                }
                            }
                        }
                    }
                    r
                },
            }
        },
    }
}

// ---------------------------------------------------------------------------
// Fresh names are pairwise distinct
// ---------------------------------------------------------------------------

/// A decimal representation has at least one digit, and at least two for
/// numbers of ten or more.
proof fn lemma_dec_digits_len(n: nat)
    ensures
        dec_digits(n).len() >= 1,
        n >= 10 ==> dec_digits(n).len() >= 2,
    decreases n,
{
    if n >= 10 {
        lemma_dec_digits_len(n / 10);
    }
}

/// Distinct digits have distinct characters.
proof fn lemma_digit_char_injective(d1: nat, d2: nat)
    requires
        d1 < 10,
        d2 < 10,
        digit_char(d1) == digit_char(d2),
    ensures
        d1 == d2,
{
}

/// Decimal representations are unique.
proof fn lemma_dec_digits_injective(n1: nat, n2: nat)
    requires
        dec_digits(n1) == dec_digits(n2),
    ensures
        n1 == n2,
    decreases n1,
{
    lemma_dec_digits_len(n1);
    lemma_dec_digits_len(n2);
    if n1 < 10 && n2 < 10 {
        assert(dec_digits(n1)[0] == digit_char(n1));
        assert(dec_digits(n2)[0] == digit_char(n2));
        lemma_digit_char_injective(n1, n2);
    } else if n1 < 10 || n2 < 10 {
        assert(dec_digits(n1).len() == dec_digits(n2).len());
        assert(false);
    } else {
        let a = dec_digits(n1 / 10);
        let b = dec_digits(n2 / 10);
        assert(dec_digits(n1) == a.push(digit_char(n1 % 10)));
        assert(dec_digits(n2) == b.push(digit_char(n2 % 10)));
        assert(dec_digits(n1).last() == digit_char(n1 % 10));
        assert(dec_digits(n2).last() == digit_char(n2 % 10));
        lemma_digit_char_injective(n1 % 10, n2 % 10);
        assert(a =~= dec_digits(n1).drop_last());
        assert(b =~= dec_digits(n2).drop_last());
        lemma_dec_digits_injective(n1 / 10, n2 / 10);
    }
}

/// Fresh type-variable names are unique per index.
pub proof fn lemma_var_name_injective(n1: nat, n2: nat)
    requires
        var_name(n1) == var_name(n2),
    ensures
        n1 == n2,
{
    assert(var_name(n1).len() == 1 + dec_digits(n1).len());
    assert(var_name(n2).len() == 1 + dec_digits(n2).len());
    assert(dec_digits(n1).len() == dec_digits(n2).len());
    assert forall|i: int| 0 <= i < dec_digits(n1).len() implies dec_digits(n1)[i] == dec_digits(
        n2,
    )[i] by {
        assert(var_name(n1)[i + 1] == dec_digits(n1)[i]);
        assert(var_name(n2)[i + 1] == dec_digits(n2)[i]);
    }
    assert(dec_digits(n1) =~= dec_digits(n2));
    lemma_dec_digits_injective(n1, n2);
}

// ---------------------------------------------------------------------------
// Instantiation
// ---------------------------------------------------------------------------

/// The renaming an instantiation applies: each bound name maps to a fresh
/// type variable, allocated outermost first; an inner binder shadows an
/// outer one with the same name.
pub open spec fn inst_map(p: SpecPoly, c: u64) -> SpecSubst
    decreases p,
{
    match p {
        SpecPoly::Mono { ty } => Map::empty(),
        SpecPoly::Quan { name, inner } => {
            let m = inst_map(*inner, wrap_inc(c));
            if m.dom().contains(name) {
                m
            } else {
                m.insert(name, SpecMono::Var { name: var_name(c as nat) })
            }
        },
    }
}

/// What instantiating a polymorphic type yields when the fresh-variable
/// counter stands at `c`.
pub open spec fn inst_spec(p: SpecPoly, c: u64) -> SpecMono {
    apply_ty(inst_map(p, c), leaf_ty(p))
}

impl PolyType {
    /// Strip the quantifiers, replacing each bound variable by a fresh type
    /// variable; two instantiations never share fresh variables.
    #[verifier::loop_isolation(false)]
    pub fn instantiate(&self, gen: &mut TypeVarGen) -> (r: MonoType)
        ensures
            r@ == inst_spec(self@, old(gen).count()),
            final(gen).count() == wrap_add(old(gen).count(), quan_count(self@)),
    {
        let ghost c0 = gen.count();
        let mut entries: Vec<(String, MonoType)> = Vec::new();
        let mut cur: &PolyType = self;
        loop
            invariant
                subst_view_of(entries@).union_prefer_right(inst_map(cur@, gen.count()))
                    == inst_map(self@, c0),
                leaf_ty(cur@) == leaf_ty(self@),
                wrap_add(gen.count(), quan_count(cur@)) == wrap_add(c0, quan_count(self@)),
            decreases quan_count(cur@),
        {
            match cur {
                PolyType::Mono(m) => {
                    proof {
                        assert(inst_map(cur@, gen.count()) =~= Map::<Seq<char>, SpecMono>::empty());
                        assert(subst_view_of(entries@).union_prefer_right(
                            inst_map(cur@, gen.count()),
                        ) =~= subst_view_of(entries@));
                    }
                    let subst = Substitution::from_map(entries);
                    return m.clone().apply(&subst);
                },
                PolyType::TyQuantifier(quan) => {
                    let ghost c_pre = gen.count();
                    let ghost pre = entries@;
                    let fresh = gen.new_type_var();
                    let bound = quan.bounded.clone();
                    let ghost gname = bound@;
                    let ghost gfresh = fresh@;
                    entries.push((bound, fresh));
                    proof {
                        assert(entries@.drop_last() =~= pre);
                        assert(entries@.last().0@ == gname && entries@.last().1@ == gfresh);
                        assert(subst_view_of(entries@) == subst_view_of(pre).insert(
                            gname,
                            gfresh,
                        ));
                        let m = inst_map((*quan.ty)@, wrap_inc(c_pre));
                        assert(subst_view_of(entries@).union_prefer_right(m)
                            =~= subst_view_of(pre).union_prefer_right(
                            inst_map(cur@, c_pre),
                        ));
                    }
                    cur = &*quan.ty;
                },
            }
        }
    }
}

// ---------------------------------------------------------------------------
// Generalization round trip
// ---------------------------------------------------------------------------

/// `t2` is `t1` up to a consistent renaming of type variables: some
/// variable-to-variable substitution, injective on the free variables of
/// `t1`, carries one to the other.
pub open spec fn alpha_eq(t1: SpecMono, t2: SpecMono) -> bool {
    exists|m: SpecSubst|
        {
            &&& forall|v: Seq<char>| #[trigger] m.dom().contains(v) ==> m[v] is Var
            &&& forall|v: Seq<char>| #[trigger] ftv_mono(t1).contains(v) ==> m.dom().contains(v)
            &&& forall|v: Seq<char>, w: Seq<char>|
                ftv_mono(t1).contains(v) && ftv_mono(t1).contains(w) && #[trigger] m[v]
                    == #[trigger] m[w] ==> v == w
            &&& apply_ty(m, t1) == t2
        }
}

/// Wrapping quantifiers changes neither the inner type nor miscounts them.
proof fn lemma_quantify_shape(q: Seq<Seq<char>>, t: SpecMono)
    ensures
        leaf_ty(quantify(q, t)) == t,
        quan_count(quantify(q, t)) == q.len(),
    decreases q.len(),
{
    if q.len() > 0 {
        lemma_quantify_shape(q.drop_last(), t);
    }
}

/// The renaming that instantiating `quantify(q, t)` applies: each listed
/// name goes to a fresh variable, all of them distinct.
proof fn lemma_inst_map_quantify(q: Seq<Seq<char>>, t: SpecMono, c: u64)
    requires
        distinct_seq(q),
        c + q.len() <= u64::MAX,
    ensures
        forall|v: Seq<char>|
            #[trigger] inst_map(quantify(q, t), c).dom().contains(v) <==> q.contains(v),
        forall|i: int|
            0 <= i < q.len() ==> inst_map(quantify(q, t), c)[#[trigger] q[i]] == (SpecMono::Var {
                name: var_name((c + q.len() - 1 - i) as nat),
            }),
    decreases q.len(),
{
    let m = inst_map(quantify(q, t), c);
    if q.len() == 0 {
        assert(forall|v: Seq<char>| !(#[trigger] q.contains(v)));
    } else {
        let q2 = q.drop_last();
        assert forall|a: int, b: int| 0 <= a < b < q2.len() implies q2[a] != q2[b] by {
            assert(q2[a] == q[a] && q2[b] == q[b]);
        }
        lemma_inst_map_quantify(q2, t, (c + 1) as u64);
        let inner = inst_map(quantify(q2, t), (c + 1) as u64);
        assert(quantify(q, t) == (SpecPoly::Quan {
            name: q.last(),
            inner: Box::new(quantify(q2, t)),
        }));
        assert(wrap_inc(c) == c + 1);
        assert(!inner.dom().contains(q.last())) by {
            if q2.contains(q.last()) {
                let i = choose|i: int| 0 <= i < q2.len() && q2[i] == q.last();
                assert(q[i] == q[q.len() - 1]);
            }
        }
        assert(m == inner.insert(q.last(), SpecMono::Var { name: var_name(c as nat) }));
        assert forall|v: Seq<char>| #[trigger] m.dom().contains(v) <==> q.contains(v) by {
            if m.dom().contains(v) {
                if v == q.last() {
                    assert(q[q.len() - 1] == v);
                } else {
                    assert(q2.contains(v));
                    let i = choose|i: int| 0 <= i < q2.len() && q2[i] == v;
                    assert(q[i] == v);
                }
            }
            if q.contains(v) {
                let i = choose|i: int| 0 <= i < q.len() && q[i] == v;
                if i < q.len() - 1 {
                    assert(q2[i] == v);
                    assert(q2.contains(v));
                } else {
                    assert(v == q.last());
                }
            }
        }
        assert forall|i: int| 0 <= i < q.len() implies m[#[trigger] q[i]] == (SpecMono::Var {
            name: var_name((c + q.len() - 1 - i) as nat),
        }) by {
            if i < q.len() - 1 {
                assert(q2[i] == q[i]);
                assert(q[i] != q.last());
                assert(inner[q2[i]] == (SpecMono::Var {
                    name: var_name((c + 1 + q2.len() - 1 - i) as nat),
                }));
            } else {
                assert(q[i] == q.last());
            }
        }
    }
}

/// Generalizing a monomorphic type whose free variables do not occur in the
/// context, then instantiating the result, yields the same type up to a
/// consistent renaming of type variables. `q` is the quantifier list that
/// `generalise` produced, and `c` the fresh-variable counter at
/// instantiation time.
pub proof fn lemma_generalise_instantiate_round_trip(
    t: SpecMono,
    ctx: Map<Seq<char>, SpecPoly>,
    q: Seq<Seq<char>>,
    c: u64,
)
    requires
        forall|v: Seq<char>| #[trigger] ftv_mono(t).contains(v) ==> !ftv_ctx(ctx).contains(v),
        distinct_seq(q),
        forall|v: Seq<char>|
            #[trigger] q.contains(v) <==> ftv_mono(t).contains(v) && !ftv_ctx(ctx).contains(v),
        c + q.len() <= u64::MAX,
    ensures
        alpha_eq(t, inst_spec(quantify(q, t), c)),
{
    let m = inst_map(quantify(q, t), c);
    lemma_inst_map_quantify(q, t, c);
    lemma_quantify_shape(q, t);
    assert(inst_spec(quantify(q, t), c) == apply_ty(m, t));
    assert forall|v: Seq<char>| #[trigger] m.dom().contains(v) implies m[v] is Var by {
        let i = choose|i: int| 0 <= i < q.len() && q[i] == v;
        assert(m[q[i]] is Var);
    }
    assert forall|v: Seq<char>| #[trigger] ftv_mono(t).contains(v) implies m.dom().contains(v) by {
        assert(q.contains(v));
    }
    assert forall|v: Seq<char>, w: Seq<char>|
        ftv_mono(t).contains(v) && ftv_mono(t).contains(w) && #[trigger] m[v] == #[trigger] m[w] implies v
        == w by {
        assert(q.contains(v) && q.contains(w));
        let i = choose|i: int| 0 <= i < q.len() && q[i] == v;
        let j = choose|j: int| 0 <= j < q.len() && q[j] == w;
        assert(m[v] == (SpecMono::Var { name: var_name((c + q.len() - 1 - i) as nat) }));
        assert(m[w] == (SpecMono::Var { name: var_name((c + q.len() - 1 - j) as nat) }));
        lemma_var_name_injective((c + q.len() - 1 - i) as nat, (c + q.len() - 1 - j) as nat);
        assert(i == j);
    }
}

// ---------------------------------------------------------------------------
// Applying substitutions to types and contexts
// ---------------------------------------------------------------------------

impl Subst for MonoType {
    open spec fn apply_model(self, s: SpecSubst) -> SpecMono {
        apply_ty(s, self@)
    }

    #[verifier::loop_isolation(false)]
    fn apply(self, s: &Substitution) -> (r: Self)
        decreases size_ty(self@),
    {
        match self {
            MonoType::TyVar(name) => match s.find(&name) {
                Some(t) => t.clone(),
                None => MonoType::TyVar(name),
            },
            MonoType::TyApp(app) => {
                let TypeApp { func, monotypes } = app;
                let ghost args = mono_seq_view(monotypes@);
                proof {
                    lemma_mono_seq_view(monotypes@);
                }
                let mut out: Vec<MonoType> = Vec::new();
                let n = monotypes.len();
                let mut i: usize = 0;
                while i < n
                    invariant
                        i <= n,
                        out.len() == i,
                        forall|j: int|
                            0 <= j < i ==> out@[j]@ == apply_ty(s@, #[trigger] args[j]),
                    decreases n - i,
                {
                    proof {
                        lemma_size_seq_element(args, i as int);
                    }
                    let ty = monotypes[i].clone();
                    out.push(ty.apply(s));
                    i += 1;
                }
                proof {
                    lemma_mono_seq_view(out@);
                    lemma_apply_seq(s@, args);
                    assert forall|j: int| 0 <= j < n implies mono_seq_view(out@)[j] == apply_seq(
                        s@,
                        args,
                    )[j] by {
                        assert(out@[j]@ == apply_ty(s@, args[j]));
                    }
                    assert(mono_seq_view(out@) =~= apply_seq(s@, args));
                }
                MonoType::TyApp(TypeApp { func, monotypes: out })
            },
        }
    }
}

/// Pushing a substitution through a polymorphic type: the quantifier prefix
/// is kept and the substitution is applied to the inner type.
pub open spec fn apply_poly(s: SpecSubst, p: SpecPoly) -> SpecPoly
    decreases p,
{
    match p {
        SpecPoly::Mono { ty } => SpecPoly::Mono { ty: apply_ty(s, ty) },
        SpecPoly::Quan { name, inner } => SpecPoly::Quan {
            name,
            inner: Box::new(apply_poly(s, *inner)),
        },
    }
}

impl Subst for PolyType {
    open spec fn apply_model(self, s: SpecSubst) -> SpecPoly {
        apply_poly(s, self@)
    }

    fn apply(self, s: &Substitution) -> (r: Self)
        decreases self,
    {
        match self {
            PolyType::Mono(mono) => PolyType::Mono(mono.apply(s)),
            PolyType::TyQuantifier(quan) => {
                let TypeQuantifier { bounded, ty } = quan;
                PolyType::TyQuantifier(
                    TypeQuantifier { bounded, ty: Box::new((*ty).apply(s)) },
                )
            },
        }
    }
}

/// Applying a substitution to every type bound in a context.
pub open spec fn apply_ctx(s: SpecSubst, ctx: Map<Seq<char>, SpecPoly>) -> Map<Seq<char>, SpecPoly> {
    Map::new(|k: Seq<char>| ctx.dom().contains(k), |k: Seq<char>| apply_poly(s, ctx[k]))
}

impl Subst for Context {
    open spec fn apply_model(self, s: SpecSubst) -> Map<Seq<char>, SpecPoly> {
        apply_ctx(s, self@)
    }

    #[verifier::loop_isolation(false)]
    fn apply(self, s: &Substitution) -> (r: Self)
    {
        let mut out: Vec<(String, PolyType)> = Vec::new();
        let n = self.constrains.len();
        let mut i: usize = 0;
        while i < n
            invariant
                i <= n,
                assoc_view(out@, |p: PolyType| p@) == apply_ctx(
                    s@,
                    assoc_view(self.constrains@.take(i as int), |p: PolyType| p@),
                ),
            decreases n - i,
        {
            let name = self.constrains[i].0.clone();
            let poly = self.constrains[i].1.clone();
            let image = poly.apply(s);
            let ghost pre = out@;
            let ghost k = name@;
            let ghost v = image@;
            out.push((name, image));
            i += 1;
            proof {
                let f = |p: PolyType| p@;
                let prefix = self.constrains@.take(i as int);
                assert(prefix.drop_last() =~= self.constrains@.take(i - 1));
                assert(prefix.last() == self.constrains@[i - 1]);
                assert(out@.drop_last() =~= pre);
                assert(out@.last().0@ == k && out@.last().1@ == v);
                assert(assoc_view(out@, f) == assoc_view(pre, f).insert(k, v));
                assert(assoc_view(out@, f) =~= apply_ctx(s@, assoc_view(prefix, f)));
            }
        }
        proof {
            assert(self.constrains@.take(n as int) =~= self.constrains@);
        }
        Context { constrains: out }
    }
}

} // verus!

