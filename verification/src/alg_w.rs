//! The Algorithm W driver: syntax-directed type inference producing a
//! substitution and a monomorphic type for an expression under a context.

use vstd::prelude::*;

use crate::models::AbsExpr;
use crate::models::AppExpr;
use crate::models::Context;
use crate::models::Expr;
use crate::models::LetExpr;
use crate::models::MonoType;
use crate::models::PolyType;
use crate::models::SpecErr;
use crate::models::SpecExpr;
use crate::models::SpecMono;
use crate::models::SpecPoly;
use crate::models::TypeApp;
use crate::models::TypeQuantifier;
use crate::models::TypeError;
use crate::models::distinct_seq;
use crate::models::ftv_ctx;
use crate::models::ftv_mono;
use crate::models::lemma_mono_seq_view;
use crate::models::lit_ty;
use crate::models::mono_seq_view;
use crate::models::quan_count;
use crate::models::quantify;
use crate::utils::SpecSubst;
use crate::utils::Subst;
use crate::utils::Substitution;
use crate::utils::TypeVarGen;
use crate::utils::absorbs;
use crate::utils::apply_ctx;
use crate::utils::apply_seq;
use crate::utils::apply_ty;
use crate::utils::compose_spec;
use crate::utils::inst_spec;
use crate::utils::is_unifier;
use crate::utils::lemma_apply_seq;
use crate::utils::solved_form;
use crate::utils::unify;
use crate::utils::unify_err_shape;
use crate::utils::var_name;
use crate::utils::wrap_add;
use crate::utils::wrap_inc;

verus! {

/// The `Int` base type.
pub open spec fn int_ty() -> SpecMono {
    SpecMono::App { ctor: "Int"@, args: Seq::empty() }
}

/// The `Bool` base type.
pub open spec fn bool_ty() -> SpecMono {
    SpecMono::App { ctor: "Bool"@, args: Seq::empty() }
}

/// The function type from `d` to `c`.
pub open spec fn arrow_ty(d: SpecMono, c: SpecMono) -> SpecMono {
    SpecMono::App { ctor: "->"@, args: seq![d, c] }
}

/// The built-in bindings an interactive session starts from.
pub open spec fn default_ctx_spec() -> Map<Seq<char>, SpecPoly> {
    Map::empty().insert(
        "list"@,
        SpecPoly::Quan {
            name: "a"@,
            inner: Box::new(
                SpecPoly::Mono {
                    ty: arrow_ty(
                        SpecMono::Var { name: "a"@ },
                        SpecMono::App { ctor: "List"@, args: seq![SpecMono::Var { name: "a"@ }] },
                    ),
                },
            ),
        },
    ).insert("inc"@, SpecPoly::Mono { ty: arrow_ty(int_ty(), int_ty()) }).insert(
        "dec"@,
        SpecPoly::Mono { ty: arrow_ty(int_ty(), int_ty()) },
    ).insert(
        "isNull"@,
        SpecPoly::Quan {
            name: "a"@,
            inner: Box::new(
                SpecPoly::Mono { ty: arrow_ty(SpecMono::Var { name: "a"@ }, bool_ty()) },
            ),
        },
    ).insert(
        "add"@,
        SpecPoly::Mono { ty: arrow_ty(int_ty(), arrow_ty(int_ty(), int_ty())) },
    )
}

/// A nullary type constructor.
fn mk_name_ty(name: &str) -> (r: MonoType)
    ensures
        r@ == (SpecMono::App { ctor: name@, args: Seq::<SpecMono>::empty() }),
{
    let r = MonoType::TyApp(TypeApp { func: name.to_owned(), monotypes: Vec::new() });
    proof {
        assert(mono_seq_view(Seq::<MonoType>::empty()) =~= Seq::<SpecMono>::empty());
    }
    r
}

/// The function type from `d` to `c`.
fn mk_arrow(d: MonoType, c: MonoType) -> (r: MonoType)
    ensures
        r@ == arrow_ty(d@, c@),
{
    let ghost gd = d@;
    let ghost gc = c@;
    let mut args: Vec<MonoType> = Vec::new();
    args.push(d);
    args.push(c);
    proof {
        lemma_mono_seq_view(args@);
        assert(args@[0]@ == gd && args@[1]@ == gc);
        assert(mono_seq_view(args@) =~= seq![gd, gc]);
    }
    MonoType::TyApp(TypeApp { func: "->".to_owned(), monotypes: args })
}

/// The context of built-in bindings: a polymorphic `list` and `isNull`, and
/// monomorphic `inc`, `dec` and `add` over `Int`.
pub fn default_ctx() -> (r: Context)
    ensures
        r@ == default_ctx_spec(),
{
    let empty_ctx = Context { constrains: Vec::new() };
    proof {
        assert(empty_ctx@ =~= Map::<Seq<char>, SpecPoly>::empty());
    }
    // list : ∀a. a -> List a
    let mut list_args: Vec<MonoType> = Vec::new();
    list_args.push(MonoType::TyVar("a".to_owned()));
    proof {
        lemma_mono_seq_view(list_args@);
        assert(list_args@[0]@ == (SpecMono::Var { name: "a"@ }));
        assert(mono_seq_view(list_args@) =~= seq![SpecMono::Var { name: "a"@ }]);
    }
    let list_of_a = MonoType::TyApp(TypeApp { func: "List".to_owned(), monotypes: list_args });
    let list_fun = mk_arrow(MonoType::TyVar("a".to_owned()), list_of_a);
    let list_inner = PolyType::Mono(list_fun);
    let ghost g_list_inner = list_inner;
    let list_poly = PolyType::TyQuantifier(
        TypeQuantifier { bounded: "a".to_owned(), ty: Box::new(list_inner) },
    );
    proof {
        assert(g_list_inner@ == (SpecPoly::Mono { ty: g_list_inner->Mono_0@ }));
        assert(list_poly@ == (SpecPoly::Quan { name: "a"@, inner: Box::new(g_list_inner@) }));
    }
    let c1 = empty_ctx.extend_with("list".to_owned(), list_poly);
    // inc, dec : Int -> Int
    let inc_fun = mk_arrow(mk_name_ty("Int"), mk_name_ty("Int"));
    let c2 = c1.extend_with("inc".to_owned(), PolyType::Mono(inc_fun));
    let dec_fun = mk_arrow(mk_name_ty("Int"), mk_name_ty("Int"));
    let c3 = c2.extend_with("dec".to_owned(), PolyType::Mono(dec_fun));
    // isNull : ∀a. a -> Bool
    let is_null_fun = mk_arrow(MonoType::TyVar("a".to_owned()), mk_name_ty("Bool"));
    let is_null_inner = PolyType::Mono(is_null_fun);
    let ghost g_null_inner = is_null_inner;
    let is_null_poly = PolyType::TyQuantifier(
        TypeQuantifier { bounded: "a".to_owned(), ty: Box::new(is_null_inner) },
    );
    proof {
        assert(g_null_inner@ == (SpecPoly::Mono { ty: g_null_inner->Mono_0@ }));
        assert(is_null_poly@ == (SpecPoly::Quan { name: "a"@, inner: Box::new(g_null_inner@) }));
    }
    let c4 = c3.extend_with("isNull".to_owned(), is_null_poly);
    // add : Int -> Int -> Int
    let add_fun = mk_arrow(
        mk_name_ty("Int"),
        mk_arrow(mk_name_ty("Int"), mk_name_ty("Int")),
    );
    let c5 = c4.extend_with("add".to_owned(), PolyType::Mono(add_fun));
    proof {
        reveal_strlit("list");
        reveal_strlit("inc");
        reveal_strlit("dec");
        reveal_strlit("isNull");
        reveal_strlit("add");
        // The five names are pairwise distinct.
        assert("inc"@[0] == 'i' && "add"@[0] == 'a' && "dec"@[0] == 'd');
        assert("inc"@.len() == 3 && "isNull"@.len() == 6 && "list"@.len() == 4);
        assert("add"@.len() == 3 && "dec"@.len() == 3);
        assert(c5@ =~~= default_ctx_spec());
    }
    c5
}

/// Whether a monomorphic type is a function type: the `"->"` constructor
/// applied to exactly a domain and a codomain.
pub open spec fn is_arrow(t: SpecMono) -> bool {
    t matches SpecMono::App { ctor, args } && ctor == "->"@ && args.len() == 2
}

/// What one inference call produced: a substitution and a type, or an error.
pub ghost enum WOut {
    Typed { s: SpecSubst, t: SpecMono },
    Failed { e: SpecErr },
}

/// A sub-inference's outcome together with the counter it left behind.
pub ghost struct WStep {
    pub out: WOut,
    pub c: u64,
}

/// The outcome a driver result denotes.
pub open spec fn w_out(r: Result<(Substitution, MonoType), TypeError>) -> WOut {
    match r {
        Ok(p) => WOut::Typed { s: p.0@, t: p.1@ },
        Err(e) => WOut::Failed { e: e@ },
    }
}

/// `s` is a most general unifier of `a` and `b`: it unifies them, it is in
/// solved form, and every unifier of the two subsumes it.
pub open spec fn mgu_ok(s: SpecSubst, a: SpecMono, b: SpecMono) -> bool {
    &&& is_unifier(s, a, b)
    &&& solved_form(s)
    &&& forall|m: SpecSubst| #[trigger] is_unifier(m, a, b) ==> absorbs(m, s)
}

/// One step of Algorithm W, as a relation: `out` and the final counter `c1`
/// are an outcome that inferring `e` under `ctx` may produce when the fresh
/// counter starts at `c0`. The relation follows the syntax-directed rules:
/// a literal yields its base type under the identity substitution; a
/// variable yields a fresh instantiation of its binding, or an
/// undefined-variable error; an abstraction binds a fresh variable for its
/// parameter, infers the body, and applies the body's substitution to the
/// arrow built from both; an application infers the function, then the
/// argument under the substituted context, and unifies the function's
/// substituted type against `argument -> fresh`, composing oldest first; a
/// `let` infers the bound expression, generalizes its type against the
/// substituted context, and infers the body under that extended context.
/// Every sub-step's error is terminal. The unification step is relational:
/// any most general unifier may stand, and when none exists the error is
/// one of the unification kinds.
pub open spec fn w_rel(
    ctx: Map<Seq<char>, SpecPoly>,
    e: SpecExpr,
    c0: u64,
    out: WOut,
    c1: u64,
) -> bool
    decreases e,
{
    match e {
        SpecExpr::Lit { lit } => out == (WOut::Typed {
            s: Map::<Seq<char>, SpecMono>::empty(),
            t: lit_ty(lit),
        }) && c1 == c0,
        SpecExpr::Var { name } => if ctx.dom().contains(name) {
            out == (WOut::Typed {
                s: Map::<Seq<char>, SpecMono>::empty(),
                t: inst_spec(ctx[name], c0),
            }) && c1 == wrap_add(c0, quan_count(ctx[name]))
        } else {
            out == (WOut::Failed { e: SpecErr::Undefined { name } }) && c1 == c0
        },
        SpecExpr::Abs { param, body } => {
            let beta = SpecMono::Var { name: var_name(c0 as nat) };
            exists|mid: WStep|
                #![trigger mid.c]
                {
                    &&& w_rel(
                        ctx.insert(param, SpecPoly::Mono { ty: beta }),
                        *body,
                        wrap_inc(c0),
                        mid.out,
                        mid.c,
                    )
                    &&& mid.c == c1
                    &&& match mid.out {
                        WOut::Typed { s: s1, t: t1 } => out == (WOut::Typed {
                            s: s1,
                            t: apply_ty(s1, arrow_ty(beta, t1)),
                        }),
                        WOut::Failed { e } => out == (WOut::Failed { e }),
                    }
                }
        },
        SpecExpr::App { fun, arg } => exists|mid1: WStep|
            #![trigger mid1.c]
            {
                &&& w_rel(ctx, *fun, c0, mid1.out, mid1.c)
                &&& match mid1.out {
                    WOut::Failed { e } => out == (WOut::Failed { e }) && c1 == mid1.c,
                    WOut::Typed { s: s1, t: t1 } => exists|mid2: WStep|
                        #![trigger mid2.c]
                        {
                            &&& w_rel(apply_ctx(s1, ctx), *arg, mid1.c, mid2.out, mid2.c)
                            &&& match mid2.out {
                                WOut::Failed { e } => out == (WOut::Failed { e }) && c1 == mid2.c,
                                WOut::Typed { s: s2, t: t2 } => {
                                    let beta = SpecMono::Var { name: var_name(mid2.c as nat) };
                                    let lhs = apply_ty(s2, t1);
                                    let target = arrow_ty(t2, beta);
                                    &&& c1 == wrap_inc(mid2.c)
                                    &&& ((exists|s3: SpecSubst|
                                        #[trigger] mgu_ok(s3, lhs, target) && out == (WOut::Typed {
                                            s: compose_spec(s1, compose_spec(s2, s3)),
                                            t: apply_ty(s3, beta),
                                        })) || ((forall|m: SpecSubst| !is_unifier(m, lhs, target))
                                        && (out matches WOut::Failed { e } && unify_err_shape(e))))
                                },
                            }
                        },
                }
            },
        SpecExpr::Let { name, bound, body } => exists|mid1: WStep|
            #![trigger mid1.c]
            {
                &&& w_rel(ctx, *bound, c0, mid1.out, mid1.c)
                &&& match mid1.out {
                    WOut::Failed { e } => out == (WOut::Failed { e }) && c1 == mid1.c,
                    WOut::Typed { s: s1, t: t1 } => {
                        let ctx1 = apply_ctx(s1, ctx);
                        exists|q: Seq<Seq<char>>, mid2: WStep|
                            #![trigger quantify(q, t1), mid2.c]
                            {
                                &&& distinct_seq(q)
                                &&& (forall|v: Seq<char>|
                                    #[trigger] q.contains(v) <==> ftv_mono(t1).contains(v)
                                        && !ftv_ctx(ctx1).contains(v))
                                &&& w_rel(
                                    ctx1.insert(name, quantify(q, t1)),
                                    *body,
                                    mid1.c,
                                    mid2.out,
                                    mid2.c,
                                )
                                &&& mid2.c == c1
                                &&& match mid2.out {
                                    WOut::Typed { s: s2, t: t2 } => out == (WOut::Typed {
                                        s: compose_spec(s1, s2),
                                        t: t2,
                                    }),
                                    WOut::Failed { e } => out == (WOut::Failed { e }),
                                }
                            }
                    },
                }
            },
    }
}

/// Infer the principal type of `expr` under `ctx`, drawing fresh type
/// variables from `gen`.
///
/// The result and the final counter stand in the Algorithm W relation
/// `w_rel` to the inputs: each case of the expression produces exactly the
/// substitution and type the syntax-directed rules prescribe, up to the
/// choice of most general unifier, and any sub-step's failure is terminal.
pub fn alg_w(ctx: Context, expr: Expr, gen: &mut TypeVarGen) -> (r: Result<
    (Substitution, MonoType),
    TypeError,
>)
    ensures
        w_rel(ctx@, expr@, old(gen).count(), w_out(r), final(gen).count()),
        match expr@ {
            SpecExpr::Lit { lit } => r matches Ok(p) && p.0@ == Map::<Seq<char>, SpecMono>::empty()
                && p.1@ == lit_ty(lit) && final(gen).count() == old(gen).count(),
            SpecExpr::Var { name } => if ctx@.dom().contains(name) {
                r matches Ok(p) && p.0@ == Map::<Seq<char>, SpecMono>::empty() && p.1@ == inst_spec(
                    ctx@[name],
                    old(gen).count(),
                ) && final(gen).count() == wrap_add(old(gen).count(), quan_count(ctx@[name]))
            } else {
                r matches Err(e) && (e matches TypeError::UndefinedVariable(n) && n@ == name)
                    && final(gen).count() == old(gen).count()
            },
            SpecExpr::Abs { param, body } => r matches Ok(p) ==> is_arrow(p.1@),
            _ => true,
        },
    decreases expr,
{
    let ghost gctx = ctx@;
    let ghost ge = expr@;
    let ghost c0 = gen.count();
    match expr {
        Expr::Lit(literal) => {
            let r = Ok((Substitution::empty(), literal.ty()));
            proof {
                assert(w_rel(gctx, ge, c0, w_out(r), gen.count()));
            }
            r
        },
        Expr::Var(var) => match ctx.find(&var) {
            Some(poly) => {
                let inst = poly.instantiate(gen);
                let r = Ok((Substitution::empty(), inst));
                proof {
                    assert(w_rel(gctx, ge, c0, w_out(r), gen.count()));
                }
                r
            },
            None => {
                let ghost gname = var@;
                let r = Err(TypeError::UndefinedVariable(var));
                proof {
                    assert(w_rel(gctx, ge, c0, w_out(r), gen.count()));
                }
                r
            },
        },
        Expr::Abs(abs) => {
            let AbsExpr { arg, body } = *abs;
            let ghost gparam = arg@;
            let ghost gbody = body@;
            proof {
                assert(ge == (SpecExpr::Abs { param: gparam, body: Box::new(gbody) }));
                assert(ge->Abs_param == gparam && *ge->Abs_body == gbody);
            }
            let beta = gen.new_type_var();
            let ghost gbeta = beta@;
            let bound_ty = PolyType::Mono(beta.clone());
            let ghost gbound_ty = bound_ty;
            let new_ctx = ctx.extend_with(arg, bound_ty);
            proof {
                assert(gbound_ty@ == (SpecPoly::Mono { ty: gbeta }));
                assert(new_ctx@ == gctx.insert(gparam, SpecPoly::Mono { ty: gbeta }));
                assert(gbeta == (SpecMono::Var { name: var_name(c0 as nat) }));
            }
            let sub_r = alg_w(new_ctx, body, gen);
            let ghost mid = WStep { out: w_out(sub_r), c: gen.count() };
            proof {
                assert(mid.out == w_out(sub_r) && mid.c == gen.count());
                assert(w_rel(
                    gctx.insert(gparam, SpecPoly::Mono { ty: gbeta }),
                    *ge->Abs_body,
                    wrap_inc(c0),
                    mid.out,
                    mid.c,
                ));
            }
            let (s1, t1) = match sub_r {
                Ok(p) => p,
                Err(e) => {
                    let r = Err(e);
                    proof {
                        assert(mid.out == (WOut::Failed { e: r->Err_0@ }));
                        assert(w_out(r) == (WOut::Failed { e: r->Err_0@ }));
                        assert(w_rel(gctx, ge, c0, w_out(r), gen.count()));
                    }
                    return r;
                },
            };
            let ghost gs1 = s1@;
            let ghost gt1 = t1@;
            let arrow = mk_arrow(beta, t1);
            let ghost arrow_view = arrow@;
            let infer_type = arrow.apply(&s1);
            let r = Ok((s1, infer_type));
            proof {
                assert(arrow_view == arrow_ty(gbeta, gt1));
                lemma_apply_seq(gs1, arrow_view->App_args);
                assert(is_arrow(infer_type@));
                assert(mid.out == (WOut::Typed { s: gs1, t: gt1 }));
                assert(w_out(r) == (WOut::Typed {
                    s: gs1,
                    t: apply_ty(gs1, arrow_ty(gbeta, gt1)),
                }));
                assert(w_rel(gctx, ge, c0, w_out(r), gen.count()));
            }
            r
        },
        Expr::App(app) => {
            let AppExpr { fun, arg } = *app;
            let ghost gfun = fun@;
            let ghost garg = arg@;
            proof {
                assert(ge == (SpecExpr::App { fun: Box::new(gfun), arg: Box::new(garg) }));
                assert(*ge->App_fun == gfun && *ge->App_arg == garg);
            }
            let sub1_r = alg_w(ctx.clone(), fun, gen);
            let ghost mid1 = WStep { out: w_out(sub1_r), c: gen.count() };
            proof {
                assert(mid1.out == w_out(sub1_r) && mid1.c == gen.count());
                assert(w_rel(gctx, *ge->App_fun, c0, mid1.out, mid1.c));
            }
            let (s1, t1) = match sub1_r {
                Ok(p) => p,
                Err(e) => {
                    let r = Err(e);
                    proof {
                        assert(mid1.out == (WOut::Failed { e: r->Err_0@ }));
                        assert(w_rel(gctx, ge, c0, w_out(r), gen.count()));
                    }
                    return r;
                },
            };
            let ghost gs1 = s1@;
            let ghost gt1 = t1@;
            proof {
                assert(mid1.out == (WOut::Typed { s: gs1, t: gt1 }));
            }
            let ctx2 = ctx.apply(&s1);
            let sub2_r = alg_w(ctx2, arg, gen);
            let ghost mid2 = WStep { out: w_out(sub2_r), c: gen.count() };
            proof {
                assert(mid2.out == w_out(sub2_r) && mid2.c == gen.count());
                assert(w_rel(apply_ctx(gs1, gctx), *ge->App_arg, mid1.c, mid2.out, mid2.c));
            }
            let (s2, t2) = match sub2_r {
                Ok(p) => p,
                Err(e) => {
                    let r = Err(e);
                    proof {
                        assert(mid2.out == (WOut::Failed { e: r->Err_0@ }));
                        assert(w_rel(gctx, ge, c0, w_out(r), gen.count()));
                    }
                    return r;
                },
            };
            let ghost gs2 = s2@;
            let ghost gt2 = t2@;
            proof {
                assert(mid2.out == (WOut::Typed { s: gs2, t: gt2 }));
            }
            let beta = gen.new_type_var();
            let ghost gbeta = beta@;
            let lhs = t1.apply(&s2);
            let target = mk_arrow(t2, beta.clone());
            let ghost glhs = lhs@;
            let ghost gtarget = target@;
            proof {
                assert(gbeta == (SpecMono::Var { name: var_name(mid2.c as nat) }));
                assert(glhs == apply_ty(gs2, gt1));
                assert(gtarget == arrow_ty(gt2, gbeta));
            }
            let s3 = match unify(lhs, target) {
                Ok(s) => s,
                Err(e) => {
                    let r = Err(e);
                    proof {
                        assert(w_out(r) == (WOut::Failed { e: r->Err_0@ }));
                        assert(unify_err_shape(r->Err_0@));
                        assert(w_rel(gctx, ge, c0, w_out(r), gen.count()));
                    }
                    return r;
                },
            };
            let ghost gs3 = s3@;
            let infer_type = beta.apply(&s3);
            let s23 = s2.combine(s3);
            let s123 = s1.combine(s23);
            let r = Ok((s123, infer_type));
            proof {
                assert(mgu_ok(gs3, glhs, gtarget));
                assert(s123@ == compose_spec(gs1, compose_spec(gs2, gs3)));
                assert(w_out(r) == (WOut::Typed {
                    s: compose_spec(gs1, compose_spec(gs2, gs3)),
                    t: apply_ty(gs3, gbeta),
                }));
                assert(w_rel(gctx, ge, c0, w_out(r), gen.count()));
            }
            r
        },
        Expr::Let(elet) => {
            let LetExpr { var, vexpr, aexpr } = *elet;
            let ghost gname = var@;
            let ghost gbound = vexpr@;
            let ghost gbody = aexpr@;
            proof {
                assert(ge == (SpecExpr::Let {
                    name: gname,
                    bound: Box::new(gbound),
                    body: Box::new(gbody),
                }));
                assert(*ge->Let_bound == gbound && *ge->Let_body == gbody);
            }
            let sub1_r = alg_w(ctx.clone(), vexpr, gen);
            let ghost mid1 = WStep { out: w_out(sub1_r), c: gen.count() };
            proof {
                assert(mid1.out == w_out(sub1_r) && mid1.c == gen.count());
                assert(w_rel(gctx, *ge->Let_bound, c0, mid1.out, mid1.c));
            }
            let (s1, t1) = match sub1_r {
                Ok(p) => p,
                Err(e) => {
                    let r = Err(e);
                    proof {
                        assert(mid1.out == (WOut::Failed { e: r->Err_0@ }));
                        assert(w_rel(gctx, ge, c0, w_out(r), gen.count()));
                    }
                    return r;
                },
            };
            let ghost gs1 = s1@;
            let ghost gt1 = t1@;
            proof {
                assert(mid1.out == (WOut::Typed { s: gs1, t: gt1 }));
            }
            let ctx1 = ctx.apply(&s1);
            let ghost gctx1 = ctx1@;
            let new_ty = t1.generalise(&ctx1);
            let ghost q = choose|q: Seq<Seq<char>>|
                new_ty@ == #[trigger] quantify(q, gt1) && distinct_seq(q) && (forall|v: Seq<char>|
                    q.contains(v) <==> ftv_mono(gt1).contains(v) && !ftv_ctx(gctx1).contains(v));
            let new_ctx = ctx1.extend_with(var, new_ty);
            proof {
                assert(gctx1 == apply_ctx(gs1, gctx));
                assert(new_ctx@ == gctx1.insert(gname, quantify(q, gt1)));
            }
            let sub2_r = alg_w(new_ctx, aexpr, gen);
            let ghost mid2 = WStep { out: w_out(sub2_r), c: gen.count() };
            proof {
                assert(mid2.out == w_out(sub2_r) && mid2.c == gen.count());
                assert(w_rel(
                    gctx1.insert(gname, quantify(q, gt1)),
                    *ge->Let_body,
                    mid1.c,
                    mid2.out,
                    mid2.c,
                ));
            }
            let (s2, t2) = match sub2_r {
                Ok(p) => p,
                Err(e) => {
                    let r = Err(e);
                    proof {
                        assert(mid2.out == (WOut::Failed { e: r->Err_0@ }));
                        assert(w_rel(gctx, ge, c0, w_out(r), gen.count()));
                    }
                    return r;
                },
            };
            let ghost gs2 = s2@;
            let s12 = s1.combine(s2);
            let r = Ok((s12, t2));
            proof {
                assert(mid2.out == (WOut::Typed { s: gs2, t: t2@ }));
                assert(w_out(r) == (WOut::Typed { s: compose_spec(gs1, gs2), t: t2@ }));
                assert(w_rel(gctx, ge, c0, w_out(r), gen.count()));
            }
            r
        },
    }
}

} // verus!
