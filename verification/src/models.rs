//! The term and type model: expressions, monomorphic and polymorphic types,
//! typing contexts, and their mathematical views.

use vstd::prelude::*;

verus! {

// ---------------------------------------------------------------------------
// Ghost models
// ---------------------------------------------------------------------------

/// Mathematical model of a monomorphic type: a type variable or a type
/// constructor applied to an ordered list of argument types.
#[verifier::ext_equal]
pub ghost enum SpecMono {
    Var { name: Seq<char> },
    App { ctor: Seq<char>, args: Seq<SpecMono> },
}

/// Mathematical model of a polymorphic type: zero or more universal
/// quantifiers wrapped around a monomorphic type.
#[verifier::ext_equal]
pub ghost enum SpecPoly {
    Mono { ty: SpecMono },
    Quan { name: Seq<char>, inner: Box<SpecPoly> },
}

/// Mathematical model of an expression tree.
#[verifier::ext_equal]
pub ghost enum SpecExpr {
    Lit { lit: SpecLit },
    Var { name: Seq<char> },
    App { fun: Box<SpecExpr>, arg: Box<SpecExpr> },
    Abs { param: Seq<char>, body: Box<SpecExpr> },
    Let { name: Seq<char>, bound: Box<SpecExpr>, body: Box<SpecExpr> },
}

/// Mathematical model of a literal.
pub ghost enum SpecLit {
    Int,
    Bool,
}

// ---------------------------------------------------------------------------
// Executable types
// ---------------------------------------------------------------------------

/// A literal of the object language; each kind maps to a fixed base type.
#[derive(Debug, Clone, Copy)]
pub enum Literal {
    Int,
    Bool,
}

/// An application node: a function expression applied to an argument.
#[derive(Debug)]
pub struct AppExpr {
    pub fun: Expr,
    pub arg: Expr,
}

/// An abstraction node: a lambda with one named parameter.
#[derive(Debug)]
pub struct AbsExpr {
    pub arg: String,
    pub body: Expr,
}

/// A let node: `let var = vexpr in aexpr`.
#[derive(Debug)]
pub struct LetExpr {
    pub var: String,
    pub vexpr: Expr,
    pub aexpr: Expr,
}

/// An expression of the object language.
#[derive(Debug)]
pub enum Expr {
    Lit(Literal),
    Var(String),
    App(Box<AppExpr>),
    Abs(Box<AbsExpr>),
    Let(Box<LetExpr>),
}

/// A type constructor applied to an ordered list of argument types.
/// The function-type constructor is named `"->"` and carries exactly two
/// arguments; all other constructors are nullary or user defined.
#[derive(Debug, PartialEq)]
pub struct TypeApp {
    pub func: String,
    pub monotypes: Vec<MonoType>,
}

/// A monomorphic type: an unresolved type variable or a type application.
#[derive(Debug, PartialEq)]
pub enum MonoType {
    TyVar(String),
    TyApp(TypeApp),
}

/// One universal quantifier around a polymorphic type.
#[derive(Debug, PartialEq)]
pub struct TypeQuantifier {
    pub bounded: String,
    pub ty: Box<PolyType>,
}

/// A polymorphic type: a monomorphic type under zero or more quantifiers.
#[derive(Debug, PartialEq)]
pub enum PolyType {
    Mono(MonoType),
    TyQuantifier(TypeQuantifier),
}

/// The typing environment: term variables bound to polymorphic types.
/// Later entries shadow earlier ones with the same name.
#[derive(Debug)]
pub struct Context {
    pub constrains: Vec<(String, PolyType)>,
}

/// Why inference rejected an expression. Each variant is terminal for the
/// inference call that raised it.
#[derive(Debug, PartialEq)]
pub enum TypeError {
    /// A term variable was used that the context does not bind.
    UndefinedVariable(String),
    /// Two type applications with different constructor names.
    MismatchedConstructor(String, String),
    /// Two type applications with different argument counts.
    MismatchedArity(MonoType, MonoType),
    /// A type variable would have to contain itself.
    InfiniteType(String, MonoType),
}

/// Mathematical model of an inference error.
#[verifier::ext_equal]
pub ghost enum SpecErr {
    Undefined { name: Seq<char> },
    CtorMismatch { c1: Seq<char>, c2: Seq<char> },
    ArityMismatch { t1: SpecMono, t2: SpecMono },
    Infinite { var: Seq<char>, ty: SpecMono },
}

// ---------------------------------------------------------------------------
// Views
// ---------------------------------------------------------------------------

impl View for Literal {
    type V = SpecLit;

    open spec fn view(&self) -> SpecLit {
        match self {
            Literal::Int => SpecLit::Int,
            Literal::Bool => SpecLit::Bool,
        }
    }
}

impl View for MonoType {
    type V = SpecMono;

    open spec fn view(&self) -> SpecMono
        decreases self,
    {
        match self {
            MonoType::TyVar(name) => SpecMono::Var { name: name@ },
            MonoType::TyApp(app) => SpecMono::App {
                ctor: app.func@,
                args: mono_seq_view(app.monotypes@),
            },
        }
    }
}

/// The views of a sequence of monomorphic types, elementwise.
pub open spec fn mono_seq_view(ts: Seq<MonoType>) -> Seq<SpecMono>
    decreases ts,
{
    if ts.len() == 0 {
        Seq::empty()
    } else {
        seq![ts[0]@] + mono_seq_view(ts.drop_first())
    }
}

/// `mono_seq_view` maps each element to its view.
pub proof fn lemma_mono_seq_view(ts: Seq<MonoType>)
    ensures
        mono_seq_view(ts).len() == ts.len(),
        forall|i: int| 0 <= i < ts.len() ==> mono_seq_view(ts)[i] == #[trigger] ts[i]@,
    decreases ts,
{
    if ts.len() > 0 {
        lemma_mono_seq_view(ts.drop_first());
        assert(mono_seq_view(ts) == seq![ts[0]@] + mono_seq_view(ts.drop_first()));
        assert forall|i: int| 0 <= i < ts.len() implies mono_seq_view(ts)[i] == ts[i]@ by {
            if i > 0 {
                assert(mono_seq_view(ts)[i] == mono_seq_view(ts.drop_first())[i - 1]);
                assert(ts.drop_first()[i - 1] == ts[i]);
            }
        }
    }
}

impl View for PolyType {
    type V = SpecPoly;

    open spec fn view(&self) -> SpecPoly
        decreases self,
    {
        match self {
            PolyType::Mono(mono) => SpecPoly::Mono { ty: mono@ },
            PolyType::TyQuantifier(quan) => SpecPoly::Quan {
                name: quan.bounded@,
                inner: Box::new((*quan.ty)@),
            },
        }
    }
}

impl View for Expr {
    type V = SpecExpr;

    open spec fn view(&self) -> SpecExpr
        decreases self,
    {
        match self {
            Expr::Lit(lit) => SpecExpr::Lit { lit: lit@ },
            Expr::Var(name) => SpecExpr::Var { name: name@ },
            Expr::App(app) => SpecExpr::App {
                fun: Box::new(app.fun@),
                arg: Box::new(app.arg@),
            },
            Expr::Abs(abs) => SpecExpr::Abs {
                param: abs.arg@,
                body: Box::new(abs.body@),
            },
            Expr::Let(elet) => SpecExpr::Let {
                name: elet.var@,
                bound: Box::new(elet.vexpr@),
                body: Box::new(elet.aexpr@),
            },
        }
    }
}

impl View for TypeError {
    type V = SpecErr;

    open spec fn view(&self) -> SpecErr {
        match self {
            TypeError::UndefinedVariable(n) => SpecErr::Undefined { name: n@ },
            TypeError::MismatchedConstructor(c1, c2) => SpecErr::CtorMismatch {
                c1: c1@,
                c2: c2@,
            },
            TypeError::MismatchedArity(t1, t2) => SpecErr::ArityMismatch { t1: t1@, t2: t2@ },
            TypeError::InfiniteType(v, t) => SpecErr::Infinite { var: v@, ty: t@ },
        }
    }
}

/// The map denoted by an association list; a later entry with the same key
/// shadows an earlier one.
pub open spec fn assoc_view<T, SV>(entries: Seq<(String, T)>, f: spec_fn(T) -> SV) -> Map<
    Seq<char>,
    SV,
>
    decreases entries,
{
    if entries.len() == 0 {
        Map::empty()
    } else {
        assoc_view(entries.drop_last(), f).insert(
            entries.last().0@,
            f(entries.last().1),
        )
    }
}

impl View for Context {
    type V = Map<Seq<char>, SpecPoly>;

    open spec fn view(&self) -> Map<Seq<char>, SpecPoly> {
        assoc_view(self.constrains@, |p: PolyType| p@)
    }
}

// ---------------------------------------------------------------------------
// Free type variables
// ---------------------------------------------------------------------------

/// The free type variables of a monomorphic type: every variable in it.
pub open spec fn ftv_mono(t: SpecMono) -> Set<Seq<char>>
    decreases t,
{
    match t {
        SpecMono::Var { name } => Set::empty().insert(name),
        SpecMono::App { ctor, args } => ftv_seq(args),
    }
}

/// The free type variables of a sequence of monomorphic types.
pub open spec fn ftv_seq(ts: Seq<SpecMono>) -> Set<Seq<char>>
    decreases ts,
{
    if ts.len() == 0 {
        Set::empty()
    } else {
        ftv_mono(ts[0]).union(ftv_seq(ts.drop_first()))
    }
}

/// The free type variables of a polymorphic type: those of the inner type,
/// minus the variables bound by the quantifiers.
pub open spec fn ftv_poly(p: SpecPoly) -> Set<Seq<char>>
    decreases p,
{
    match p {
        SpecPoly::Mono { ty } => ftv_mono(ty),
        SpecPoly::Quan { name, inner } => ftv_poly(*inner).remove(name),
    }
}

/// The free type variables of a context: the union over its bound types.
pub open spec fn ftv_ctx(ctx: Map<Seq<char>, SpecPoly>) -> Set<Seq<char>> {
    Set::new(
        |v: Seq<char>|
            exists|x: Seq<char>| #[trigger] ctx.dom().contains(x) && ftv_poly(ctx[x]).contains(v),
    )
}

/// A variable is free in a sequence exactly when it is free in some element.
pub proof fn lemma_ftv_seq(ts: Seq<SpecMono>, v: Seq<char>)
    ensures
        ftv_seq(ts).contains(v) <==> exists|i: int|
            0 <= i < ts.len() && #[trigger] ftv_mono(ts[i]).contains(v),
    decreases ts,
{
    if ts.len() > 0 {
        lemma_ftv_seq(ts.drop_first(), v);
        if ftv_seq(ts).contains(v) {
            if ftv_mono(ts[0]).contains(v) {
                assert(ftv_mono(ts[0]).contains(v));
            } else {
                let i = choose|i: int|
                    0 <= i < ts.drop_first().len() && #[trigger] ftv_mono(
                        ts.drop_first()[i],
                    ).contains(v);
                assert(ts.drop_first()[i] == ts[i + 1]);
                assert(ftv_mono(ts[i + 1]).contains(v));
            }
        }
        if exists|i: int| 0 <= i < ts.len() && #[trigger] ftv_mono(ts[i]).contains(v) {
            let i = choose|i: int| 0 <= i < ts.len() && #[trigger] ftv_mono(ts[i]).contains(v);
            if i > 0 {
                assert(ts.drop_first()[i - 1] == ts[i]);
                assert(ftv_mono(ts.drop_first()[i - 1]).contains(v));
            }
        }
    }
}

// ---------------------------------------------------------------------------
// Size of a type term
// ---------------------------------------------------------------------------

/// The number of nodes of a monomorphic type term.
pub open spec fn size_ty(t: SpecMono) -> nat
    decreases t,
{
    match t {
        SpecMono::Var { name } => 1,
        SpecMono::App { ctor, args } => 1 + size_seq(args),
    }
}

/// The total number of nodes of a sequence of type terms.
pub open spec fn size_seq(ts: Seq<SpecMono>) -> nat
    decreases ts,
{
    if ts.len() == 0 {
        0
    } else {
        size_ty(ts[0]) + size_seq(ts.drop_first())
    }
}

/// A type term has at least one node.
pub proof fn lemma_size_pos(t: SpecMono)
    ensures
        size_ty(t) >= 1,
{
    match t {
        SpecMono::Var { name } => {},
        SpecMono::App { ctor, args } => {},
    }
}

/// The set of free variables of a type term is finite.
pub proof fn lemma_ftv_finite(t: SpecMono)
    ensures
        ftv_mono(t).finite(),
    decreases t,
{
    match t {
        SpecMono::Var { name } => {},
        SpecMono::App { ctor, args } => {
            lemma_ftv_seq_finite(args);
        },
    }
}

/// The set of free variables of a sequence of type terms is finite.
pub proof fn lemma_ftv_seq_finite(ts: Seq<SpecMono>)
    ensures
        ftv_seq(ts).finite(),
    decreases ts,
{
    if ts.len() > 0 {
        lemma_ftv_finite(ts[0]);
        lemma_ftv_seq_finite(ts.drop_first());
        vstd::set::axiom_set_union_finite(ftv_mono(ts[0]), ftv_seq(ts.drop_first()));
    }
}

/// Every element of a sequence is at most as large as the whole sequence.
pub proof fn lemma_size_seq_element(ts: Seq<SpecMono>, i: int)
    requires
        0 <= i < ts.len(),
    ensures
        size_ty(ts[i]) <= size_seq(ts),
    decreases ts,
{
    if i > 0 {
        lemma_size_seq_element(ts.drop_first(), i - 1);
        assert(ts.drop_first()[i - 1] == ts[i]);
    }
}

// ---------------------------------------------------------------------------
// Cloning (view-preserving deep copies)
// ---------------------------------------------------------------------------

impl Clone for MonoType {
    /// A deep copy denoting the same monomorphic type.
    #[verifier::loop_isolation(false)]
    fn clone(&self) -> (r: Self)
        ensures
            r@ == self@,
        decreases size_ty(self@),
    {
        match self {
            MonoType::TyVar(name) => MonoType::TyVar(name.clone()),
            MonoType::TyApp(app) => {
                let mut copies: Vec<MonoType> = Vec::new();
                let n = app.monotypes.len();
                let mut i: usize = 0;
                while i < n
                    invariant
                        n == app.monotypes.len(),
                        i <= n,
                        copies.len() == i,
                        forall|j: int| 0 <= j < i ==> copies@[j]@ == #[trigger] app.monotypes@[j]@,
                    decreases n - i,
                {
                    proof {
                        lemma_mono_seq_view(app.monotypes@);
                        lemma_size_seq_element(mono_seq_view(app.monotypes@), i as int);
                        assert(*self == MonoType::TyApp(*app));
                        assert((*self)@ == SpecMono::App {
                            ctor: app.func@,
                            args: mono_seq_view(app.monotypes@),
                        });
                        assert(app.monotypes@[i as int]@ == mono_seq_view(app.monotypes@)[i as int]);
                        assert(size_ty(app.monotypes@[i as int]@) < size_ty((*self)@));
                    }
                    copies.push(app.monotypes[i].clone());
                    i += 1;
                }
                proof {
                    lemma_mono_seq_view(copies@);
                    lemma_mono_seq_view(app.monotypes@);
                    assert forall|j: int| 0 <= j < copies@.len() implies mono_seq_view(copies@)[j]
                        == mono_seq_view(app.monotypes@)[j] by {
                        assert(copies@[j]@ == app.monotypes@[j]@);
                    }
                    assert(mono_seq_view(copies@) =~= mono_seq_view(app.monotypes@));
                }
                MonoType::TyApp(TypeApp { func: app.func.clone(), monotypes: copies })
            },
        }
    }
}

impl Clone for PolyType {
    /// A deep copy denoting the same polymorphic type.
    fn clone(&self) -> (r: Self)
        ensures
            r@ == self@,
        decreases self,
    {
        match self {
            PolyType::Mono(mono) => PolyType::Mono(mono.clone()),
            PolyType::TyQuantifier(quan) => PolyType::TyQuantifier(
                TypeQuantifier { bounded: quan.bounded.clone(), ty: Box::new((*quan.ty).clone()) },
            ),
        }
    }
}

impl Clone for Context {
    /// A copy denoting the same typing environment.
    fn clone(&self) -> (r: Self)
        ensures
            r@ == self@,
    {
        let mut entries: Vec<(String, PolyType)> = Vec::new();
        let n = self.constrains.len();
        let mut i: usize = 0;
        while i < n
            invariant
                n == self.constrains.len(),
                i <= n,
                entries.len() == i,
                forall|j: int|
                    0 <= j < i ==> entries[j].0@ == #[trigger] self.constrains[j].0@
                        && entries[j].1@ == self.constrains[j].1@,
            decreases n - i,
        {
            let name = self.constrains[i].0.clone();
            let poly = self.constrains[i].1.clone();
            entries.push((name, poly));
            i += 1;
        }
        proof {
            lemma_assoc_view_congruent(
                entries@,
                self.constrains@,
                |p: PolyType| p@,
                |p: PolyType| p@,
            );
        }
        Context { constrains: entries }
    }
}

// ---------------------------------------------------------------------------
// Literals, context operations, free-variable collection
// ---------------------------------------------------------------------------

/// The fixed base type a literal denotes.
pub open spec fn lit_ty(l: SpecLit) -> SpecMono {
    match l {
        SpecLit::Int => SpecMono::App { ctor: "Int"@, args: Seq::empty() },
        SpecLit::Bool => SpecMono::App { ctor: "Bool"@, args: Seq::empty() },
    }
}

impl Literal {
    /// The base type of this literal: `Int` or `Bool`, with no arguments.
    pub fn ty(&self) -> (r: MonoType)
        ensures
            r@ == lit_ty(self@),
    {
        let ctor = match self {
            Literal::Int => "Int",
            Literal::Bool => "Bool",
        };
        let r = MonoType::TyApp(TypeApp { func: ctor.to_owned(), monotypes: Vec::new() });
        proof {
            assert(mono_seq_view(Seq::<MonoType>::empty()) =~= Seq::<SpecMono>::empty());
        }
        r
    }
}

/// The names listed in a vector of strings, as a set.
pub open spec fn name_set(r: Seq<String>) -> Set<Seq<char>> {
    Set::new(|v: Seq<char>| exists|i: int| 0 <= i < r.len() && (#[trigger] r[i])@ == v)
}

/// No two entries of the vector spell the same name.
pub open spec fn distinct_names(r: Seq<String>) -> bool {
    forall|i: int, j: int| 0 <= i < j < r.len() ==> (#[trigger] r[i])@ != (#[trigger] r[j])@
}

/// A vector that lists exactly the names of a set, each once.
pub open spec fn lists_name_set(r: Seq<String>, s: Set<Seq<char>>) -> bool {
    distinct_names(r) && name_set(r) == s
}

/// Whether a name is listed in a vector of names.
#[verifier::loop_isolation(false)]
pub fn has_name(names: &Vec<String>, name: &String) -> (r: bool)
    ensures
        r == name_set(names@).contains(name@),
{
    let n = names.len();
    let mut i: usize = 0;
    while i < n
        invariant
            i <= n,
            forall|j: int| 0 <= j < i ==> (#[trigger] names@[j])@ != name@,
        decreases n - i,
    {
        if names[i] == *name {
            return true;
        }
        i += 1;
    }
    proof {
        if name_set(names@).contains(name@) {
            let j = choose|j: int| 0 <= j < names@.len() && (#[trigger] names@[j])@ == name@;
        }
    }
    false
}

/// Push every name of `more` that `acc` does not already list.
#[verifier::loop_isolation(false)]
fn absorb_names(acc: &mut Vec<String>, more: &Vec<String>)
    requires
        distinct_names(old(acc)@),
    ensures
        distinct_names(final(acc)@),
        name_set(final(acc)@) == name_set(old(acc)@).union(name_set(more@)),
{
    let n = more.len();
    let mut i: usize = 0;
    while i < n
        invariant
            i <= n,
            distinct_names(acc@),
            name_set(acc@) =~= name_set(old(acc)@).union(
                Set::new(
                    |v: Seq<char>|
                        exists|j: int| 0 <= j < i && (#[trigger] more@[j])@ == v,
                ),
            ),
        decreases n - i,
    {
        let ghost pre = acc@;
        let present = has_name(acc, &more[i]);
        if !present {
            acc.push(more[i].clone());
            proof {
                assert forall|a: int, b: int| 0 <= a < b < acc@.len() implies (#[trigger] acc@[a])@
                    != (#[trigger] acc@[b])@ by {
                    if b == acc@.len() - 1 {
                        assert(name_set(pre).contains(acc@[b]@) == false);
                        assert(pre[a] == acc@[a]);
                    } else {
                        assert(pre[a] == acc@[a] && pre[b] == acc@[b]);
                    }
                }
            }
        }
        i += 1;
        proof {
            let old_set = name_set(old(acc)@);
            let step_set = Set::new(
                |v: Seq<char>| exists|j: int| 0 <= j < i && (#[trigger] more@[j])@ == v,
            );
            assert forall|v: Seq<char>|
                name_set(acc@).contains(v) == old_set.union(step_set).contains(v) by {
                if name_set(acc@).contains(v) {
                    let k = choose|k: int| 0 <= k < acc@.len() && (#[trigger] acc@[k])@ == v;
                    if k < pre.len() {
                        assert(pre[k] == acc@[k]);
                        assert(name_set(pre).contains(v));
                    } else {
                        assert(acc@[k]@ == more@[i - 1]@);
                        assert(step_set.contains(v));
                    }
                }
                if old_set.contains(v) {
                    assert(name_set(pre).contains(v));
                }
                if step_set.contains(v) {
                    let j = choose|j: int| 0 <= j < i && (#[trigger] more@[j])@ == v;
                    if j < i - 1 {
                        assert(name_set(pre).contains(v));
                    } else if present {
                        assert(name_set(pre).contains(more@[i - 1]@));
                    } else {
                        assert(acc@[acc@.len() - 1]@ == more@[i - 1]@);
                        assert(name_set(acc@).contains(v));
                    }
                }
                if name_set(pre).contains(v) {
                    let k = choose|k: int| 0 <= k < pre.len() && (#[trigger] pre[k])@ == v;
                    assert(acc@[k]@ == v);
                    assert(name_set(acc@).contains(v));
                }
            }
            assert(name_set(acc@) =~= old_set.union(step_set));
        }
    }
    proof {
        assert(Set::new(
            |v: Seq<char>| exists|j: int| 0 <= j < n && (#[trigger] more@[j])@ == v,
        ) =~= name_set(more@));
        assert(name_set(final(acc)@) =~= name_set(old(acc)@).union(name_set(more@)));
    }
}

/// A value with a set of free type variables that can be listed.
pub trait GetFreeVars {
    /// The set of free type variables.
    spec fn free_vars_model(&self) -> Set<Seq<char>>;

    /// List the free type variables, each name once.
    fn free_vars(&self) -> (r: Vec<String>)
        ensures
            lists_name_set(r@, self.free_vars_model()),
    ;
}

/// Collect the free variables of a type into `acc`, skipping names already
/// listed.
#[verifier::loop_isolation(false)]
fn collect_mono_vars(t: &MonoType, acc: &mut Vec<String>)
    requires
        distinct_names(old(acc)@),
    ensures
        distinct_names(final(acc)@),
        name_set(final(acc)@) == name_set(old(acc)@).union(ftv_mono(t@)),
    decreases size_ty(t@),
{
    match t {
        MonoType::TyVar(name) => {
            let ghost pre = acc@;
            if !has_name(acc, name) {
                acc.push(name.clone());
                proof {
                    assert forall|a: int, b: int| 0 <= a < b < acc@.len() implies (
                    #[trigger] acc@[a])@ != (#[trigger] acc@[b])@ by {
                        if b == acc@.len() - 1 {
                            assert(pre[a] == acc@[a]);
                        } else {
                            assert(pre[a] == acc@[a] && pre[b] == acc@[b]);
                        }
                    }
                }
            }
            proof {
                assert forall|v: Seq<char>| name_set(acc@).contains(v) <==> name_set(pre).contains(
                    v,
                ) || v == name@ by {
                    if name_set(acc@).contains(v) {
                        let k = choose|k: int| 0 <= k < acc@.len() && (#[trigger] acc@[k])@ == v;
                        if k < pre.len() {
                            assert(pre[k] == acc@[k]);
                        }
                    }
                    if name_set(pre).contains(v) {
                        let k = choose|k: int| 0 <= k < pre.len() && (#[trigger] pre[k])@ == v;
                        assert(acc@[k]@ == v);
                    }
                    if v == name@ && !name_set(pre).contains(v) {
                        assert(acc@.last()@ == v);
                    }
                }
                assert(name_set(acc@) =~= name_set(pre).union(ftv_mono(t@)));
            }
        },
        MonoType::TyApp(app) => {
            let ghost args = mono_seq_view(app.monotypes@);
            proof {
                lemma_mono_seq_view(app.monotypes@);
            }
            let n = app.monotypes.len();
            let mut i: usize = 0;
            while i < n
                invariant
                    i <= n,
                    distinct_names(acc@),
                    name_set(acc@) =~= name_set(old(acc)@).union(
                        Set::new(
                            |v: Seq<char>|
                                exists|j: int|
                                    0 <= j < i && ftv_mono(#[trigger] args[j]).contains(v),
                        ),
                    ),
                decreases n - i,
            {
                proof {
                    lemma_size_seq_element(args, i as int);
                }
                let ghost pre = acc@;
                collect_mono_vars(&app.monotypes[i], acc);
                i += 1;
                proof {
                    assert(name_set(acc@) =~= name_set(old(acc)@).union(
                        Set::new(
                            |v: Seq<char>|
                                exists|j: int|
                                    0 <= j < i && ftv_mono(#[trigger] args[j]).contains(v),
                        ),
                    ));
                }
            }
            proof {
                assert forall|v: Seq<char>|
                    (exists|j: int| 0 <= j < n && ftv_mono(#[trigger] args[j]).contains(v))
                        <==> ftv_mono(t@).contains(v) by {
                    lemma_ftv_seq(args, v);
                }
                assert(Set::new(
                    |v: Seq<char>|
                        exists|j: int| 0 <= j < n && ftv_mono(#[trigger] args[j]).contains(v),
                ) =~= ftv_mono(t@));
                assert(name_set(acc@) =~= name_set(old(acc)@).union(ftv_mono(t@)));
            }
        },
    }
}

impl GetFreeVars for MonoType {
    open spec fn free_vars_model(&self) -> Set<Seq<char>> {
        ftv_mono(self@)
    }

    fn free_vars(&self) -> (r: Vec<String>) {
        let mut acc: Vec<String> = Vec::new();
        collect_mono_vars(self, &mut acc);
        proof {
            assert(name_set(Seq::<String>::empty()) =~= Set::<Seq<char>>::empty());
            assert(name_set(acc@) =~= ftv_mono(self@));
        }
        acc
    }
}

impl GetFreeVars for PolyType {
    open spec fn free_vars_model(&self) -> Set<Seq<char>> {
        ftv_poly(self@)
    }

    #[verifier::loop_isolation(false)]
    fn free_vars(&self) -> (r: Vec<String>)
        decreases self,
    {
        match self {
            PolyType::Mono(mono) => mono.free_vars(),
            PolyType::TyQuantifier(quan) => {
                let inner = quan.ty.free_vars();
                let mut kept: Vec<String> = Vec::new();
                let n = inner.len();
                let mut i: usize = 0;
                while i < n
                    invariant
                        i <= n,
                        distinct_names(kept@),
                        forall|v: Seq<char>|
                            name_set(kept@).contains(v) <==> v != quan.bounded@ && (exists|j: int|
                                0 <= j < i && (#[trigger] inner@[j])@ == v),
                    decreases n - i,
                {
                    let ghost pre = kept@;
                    let is_bound = inner[i] == quan.bounded;
                    if !is_bound {
                        kept.push(inner[i].clone());
                        proof {
                            assert forall|a: int, b: int| 0 <= a < b < kept@.len() implies (
                            #[trigger] kept@[a])@ != (#[trigger] kept@[b])@ by {
                                if b == kept@.len() - 1 {
                                    assert(pre[a] == kept@[a]);
                                    assert(kept@[b]@ == inner@[i as int]@);
                                    assert(distinct_names(inner@));
                                    if name_set(pre).contains(inner@[i as int]@) {
                                        let k = choose|k: int|
                                            0 <= k < pre.len() && (#[trigger] pre[k])@ == inner@[
                                                i as int
                                            ]@;
                                        let j = choose|j: int|
                                            0 <= j < i && (#[trigger] inner@[j])@ == pre[k]@;
                                    }
                                    assert(!name_set(pre).contains(kept@[b]@)) by {
                                        if name_set(pre).contains(inner@[i as int]@) {
                                            let j = choose|j: int|
                                                0 <= j < i && (#[trigger] inner@[j])@ == inner@[
                                                    i as int
                                                ]@;
                                        }
                                    }
                                } else {
                                    assert(pre[a] == kept@[a] && pre[b] == kept@[b]);
                                }
                            }
                        }
                    }
                    i += 1;
                    proof {
                        assert forall|v: Seq<char>|
                            name_set(kept@).contains(v) == (v != quan.bounded@ && (exists|j: int|
                                0 <= j < i && (#[trigger] inner@[j])@ == v)) by {
                            if name_set(kept@).contains(v) {
                                let k = choose|k: int|
                                    0 <= k < kept@.len() && (#[trigger] kept@[k])@ == v;
                                if k < pre.len() {
                                    assert(pre[k] == kept@[k]);
                                    assert(name_set(pre).contains(v));
                                } else {
                                    assert(kept@[k]@ == inner@[i - 1]@);
                                    assert(!is_bound);
                                }
                            }
                            if name_set(pre).contains(v) {
                                let k = choose|k: int|
                                    0 <= k < pre.len() && (#[trigger] pre[k])@ == v;
                                assert(kept@[k]@ == v);
                                assert(name_set(kept@).contains(v));
                            }
                            if v != quan.bounded@ && (exists|j: int|
                                0 <= j < i && (#[trigger] inner@[j])@ == v) {
                                let j = choose|j: int|
                                    0 <= j < i && (#[trigger] inner@[j])@ == v;
                                if j < i - 1 {
                                    assert(name_set(pre).contains(v));
                                } else {
                                    assert(!is_bound);
                                    assert(kept@[kept@.len() - 1]@ == inner@[i - 1]@);
                                    assert(name_set(kept@).contains(v));
                                }
                            }
                        }
                    }
                }
                proof {
                    assert forall|v: Seq<char>|
                        name_set(kept@).contains(v) <==> ftv_poly(self@).contains(v) by {
                        if v != quan.bounded@ && name_set(inner@).contains(v) {
                            let j = choose|j: int|
                                0 <= j < inner@.len() && (#[trigger] inner@[j])@ == v;
                        }
                    }
                    assert(name_set(kept@) =~= ftv_poly(self@));
                }
                kept
            },
        }
    }
}

/// Every key of the denoted map is spelled by some entry.
pub proof fn lemma_assoc_view_dom<T, SV>(entries: Seq<(String, T)>, f: spec_fn(T) -> SV, k: Seq<char>)
    requires
        assoc_view(entries, f).dom().contains(k),
    ensures
        exists|j: int| 0 <= j < entries.len() && (#[trigger] entries[j].0)@ == k,
    decreases entries,
{
    if entries.len() > 0 {
        if entries.last().0@ == k {
            assert(entries[entries.len() - 1].0@ == k);
        } else {
            lemma_assoc_view_dom(entries.drop_last(), f, k);
            let j = choose|j: int|
                0 <= j < entries.drop_last().len() && (#[trigger] entries.drop_last()[j].0)@ == k;
            assert(entries[j].0@ == k);
        }
    }
}

impl GetFreeVars for Context {
    open spec fn free_vars_model(&self) -> Set<Seq<char>> {
        ftv_ctx(self@)
    }

    #[verifier::loop_isolation(false)]
    fn free_vars(&self) -> (r: Vec<String>) {
        let mut acc: Vec<String> = Vec::new();
        let mut seen: Vec<String> = Vec::new();
        let n = self.constrains.len();
        let mut i: usize = n;
        while i > 0
            invariant
                i <= n,
                distinct_names(acc@),
                forall|v: Seq<char>|
                    name_set(seen@).contains(v) <==> exists|j: int|
                        i <= j < n && (#[trigger] self.constrains@[j].0)@ == v,
                forall|v: Seq<char>|
                    name_set(acc@).contains(v) <==> exists|k: Seq<char>|
                        name_set(seen@).contains(k) && self@.dom().contains(k)
                            && ftv_poly(#[trigger] self@[k]).contains(v),
            decreases i,
        {
            i -= 1;
            let ghost seen_pre = seen@;
            let ghost acc_pre = acc@;
            let key_listed = has_name(&seen, &self.constrains[i].0);
            if !key_listed {
                proof {
                    let f = |p: PolyType| p@;
                    assert forall|j: int| i + 1 <= j < self.constrains@.len() implies (
                    #[trigger] self.constrains@[j].0)@ != self.constrains@[i as int].0@ by {
                        if self.constrains@[j].0@ == self.constrains@[i as int].0@ {
                            assert(name_set(seen_pre).contains(self.constrains@[j].0@));
                        }
                    }
                    crate::utils::lemma_assoc_view_take(
                        self.constrains@,
                        f,
                        self.constrains@[i as int].0@,
                        i + 1,
                    );
                    let prefix = self.constrains@.take(i + 1);
                    assert(prefix.drop_last() =~= self.constrains@.take(i as int));
                    assert(prefix.last() == self.constrains@[i as int]);
                    assert(self@.dom().contains(self.constrains@[i as int].0@));
                    assert(self@[self.constrains@[i as int].0@]
                        == self.constrains@[i as int].1@);
                }
                seen.push(self.constrains[i].0.clone());
                let vs = self.constrains[i].1.free_vars();
                absorb_names(&mut acc, &vs);
                proof {
                    let ki = self.constrains@[i as int].0@;
                    assert forall|v: Seq<char>|
                        name_set(seen@).contains(v) == (exists|j: int|
                            i <= j < n && (#[trigger] self.constrains@[j].0)@ == v) by {
                        if name_set(seen@).contains(v) {
                            let k = choose|k: int|
                                0 <= k < seen@.len() && (#[trigger] seen@[k])@ == v;
                            if k < seen_pre.len() {
                                assert(seen_pre[k] == seen@[k]);
                                assert(name_set(seen_pre).contains(v));
                            } else {
                                assert(seen@[k]@ == ki);
                                assert(self.constrains@[i as int].0@ == v);
                            }
                        }
                        if exists|j: int| i <= j < n && (#[trigger] self.constrains@[j].0)@ == v {
                            let j = choose|j: int|
                                i <= j < n && (#[trigger] self.constrains@[j].0)@ == v;
                            if j > i {
                                assert(name_set(seen_pre).contains(v));
                                let k = choose|k: int|
                                    0 <= k < seen_pre.len() && (#[trigger] seen_pre[k])@ == v;
                                assert(seen@[k]@ == v);
                            } else {
                                assert(seen@[seen@.len() - 1]@ == ki);
                            }
                        }
                        if name_set(seen_pre).contains(v) {
                            let k = choose|k: int|
                                0 <= k < seen_pre.len() && (#[trigger] seen_pre[k])@ == v;
                            assert(seen@[k]@ == v);
                        }
                    }
                    assert forall|v: Seq<char>|
                        name_set(acc@).contains(v) == (exists|k: Seq<char>|
                            name_set(seen@).contains(k) && self@.dom().contains(k) && ftv_poly(
                                #[trigger] self@[k],
                            ).contains(v)) by {
                        if name_set(acc@).contains(v) {
                            if name_set(acc_pre).contains(v) {
                                let k = choose|k: Seq<char>|
                                    name_set(seen_pre).contains(k) && self@.dom().contains(k)
                                        && ftv_poly(#[trigger] self@[k]).contains(v);
                                assert(name_set(seen@).contains(k));
                            } else {
                                assert(name_set(vs@).contains(v));
                                assert(ftv_poly(self@[ki]).contains(v));
                                assert(name_set(seen@).contains(ki));
                            }
                        }
                        if exists|k: Seq<char>|
                            name_set(seen@).contains(k) && self@.dom().contains(k) && ftv_poly(
                                #[trigger] self@[k],
                            ).contains(v) {
                            let k = choose|k: Seq<char>|
                                name_set(seen@).contains(k) && self@.dom().contains(k) && ftv_poly(
                                    #[trigger] self@[k],
                                ).contains(v);
                            if name_set(seen_pre).contains(k) {
                                assert(name_set(acc_pre).contains(v));
                            } else {
                                assert(k == ki);
                                assert(name_set(vs@).contains(v));
                            }
                        }
                    }
                }
            } else {
                proof {
                    assert forall|v: Seq<char>|
                        name_set(seen@).contains(v) == (exists|j: int|
                            i <= j < n && (#[trigger] self.constrains@[j].0)@ == v) by {
                        if exists|j: int| i <= j < n && (#[trigger] self.constrains@[j].0)@ == v {
                            let j = choose|j: int|
                                i <= j < n && (#[trigger] self.constrains@[j].0)@ == v;
                            if j == i {
                                assert(name_set(seen@).contains(
                                    self.constrains@[i as int].0@,
                                ));
                            }
                        }
                    }
                }
            }
        }
        proof {
            assert forall|v: Seq<char>| name_set(acc@).contains(v) == ftv_ctx(self@).contains(
                v,
            ) by {
                let f = |p: PolyType| p@;
                if ftv_ctx(self@).contains(v) {
                    let x = choose|x: Seq<char>|
                        #[trigger] self@.dom().contains(x) && ftv_poly(self@[x]).contains(v);
                    lemma_assoc_view_dom(self.constrains@, f, x);
                    let j = choose|j: int|
                        0 <= j < self.constrains@.len() && (#[trigger] self.constrains@[j].0)@
                            == x;
                    assert(name_set(seen@).contains(x));
                }
            }
            assert(name_set(acc@) =~= ftv_ctx(self@));
        }
        acc
    }
}

// ---------------------------------------------------------------------------
// Rendering
// ---------------------------------------------------------------------------

/// Every `"->"` constructor in the term carries exactly two arguments.
pub open spec fn arrows_wf(t: SpecMono) -> bool
    decreases t,
{
    match t {
        SpecMono::Var { name } => true,
        SpecMono::App { ctor, args } => (ctor == "->"@ ==> args.len() == 2) && arrows_wf_seq(args),
    }
}

/// `arrows_wf` over every element of a sequence.
pub open spec fn arrows_wf_seq(ts: Seq<SpecMono>) -> bool
    decreases ts,
{
    if ts.len() == 0 {
        true
    } else {
        arrows_wf(ts[0]) && arrows_wf_seq(ts.drop_first())
    }
}

/// `arrows_wf_seq` holds exactly when every element is well formed.
pub proof fn lemma_arrows_wf_seq(ts: Seq<SpecMono>)
    ensures
        arrows_wf_seq(ts) <==> forall|i: int| 0 <= i < ts.len() ==> arrows_wf(#[trigger] ts[i]),
    decreases ts,
{
    if ts.len() > 0 {
        lemma_arrows_wf_seq(ts.drop_first());
        if arrows_wf_seq(ts) {
            assert forall|i: int| 0 <= i < ts.len() implies arrows_wf(#[trigger] ts[i]) by {
                if i > 0 {
                    assert(ts.drop_first()[i - 1] == ts[i]);
                    assert(arrows_wf(ts.drop_first()[i - 1]));
                }
            }
        }
        if forall|i: int| 0 <= i < ts.len() ==> arrows_wf(#[trigger] ts[i]) {
            assert forall|i: int| 0 <= i < ts.drop_first().len() implies arrows_wf(
                #[trigger] ts.drop_first()[i],
            ) by {
                assert(ts.drop_first()[i] == ts[i + 1]);
            }
        }
    }
}

impl MonoType {
    /// Whether every `"->"` constructor in this type carries exactly two
    /// arguments, so that the type can be rendered.
    #[verifier::loop_isolation(false)]
    pub fn arrows_ok(&self) -> (r: bool)
        ensures
            r == arrows_wf(self@),
        decreases size_ty(self@),
    {
        match self {
            MonoType::TyVar(name) => true,
            MonoType::TyApp(app) => {
                let ghost args = mono_seq_view(app.monotypes@);
                proof {
                    lemma_mono_seq_view(app.monotypes@);
                    lemma_arrows_wf_seq(args);
                }
                let arrow_name = "->".to_owned();
                if app.func == arrow_name && app.monotypes.len() != 2 {
                    return false;
                }
                let n = app.monotypes.len();
                let mut i: usize = 0;
                while i < n
                    invariant
                        i <= n,
                        forall|j: int| 0 <= j < i ==> arrows_wf(#[trigger] args[j]),
                    decreases n - i,
                {
                    proof {
                        lemma_size_seq_element(args, i as int);
                    }
                    if !app.monotypes[i].arrows_ok() {
                        return false;
                    }
                    i += 1;
                }
                true
            },
        }
    }
}

impl PolyType {
    /// Whether the type under the quantifiers can be rendered.
    pub fn arrows_ok(&self) -> (r: bool)
        ensures
            r == arrows_wf_poly(self@),
        decreases self,
    {
        match self {
            PolyType::Mono(mono) => mono.arrows_ok(),
            PolyType::TyQuantifier(quan) => quan.ty.arrows_ok(),
        }
    }
}

/// The textual form of a monomorphic type: a variable is its name, an arrow
/// is rendered infix, any other constructor prefix with its arguments.
pub open spec fn render_ty(t: SpecMono) -> Seq<char>
    decreases t,
{
    match t {
        SpecMono::Var { name } => name,
        SpecMono::App { ctor, args } => if ctor == "->"@ && args.len() == 2 {
            render_ty(args[0]) + " -> "@ + render_ty(args[1])
        } else {
            ctor + render_args(args)
        },
    }
}

/// The rendered argument list: one space before each argument.
pub open spec fn render_args(ts: Seq<SpecMono>) -> Seq<char>
    decreases ts,
{
    if ts.len() == 0 {
        Seq::empty()
    } else {
        " "@ + render_ty(ts[0]) + render_args(ts.drop_first())
    }
}

/// Appending one type to an argument list appends its rendering.
proof fn lemma_render_args_snoc(ts: Seq<SpecMono>, t: SpecMono)
    ensures
        render_args(ts.push(t)) == render_args(ts) + " "@ + render_ty(t),
    decreases ts,
{
    if ts.len() == 0 {
        assert(ts.push(t).drop_first() =~= Seq::<SpecMono>::empty());
        assert(render_args(ts.push(t).drop_first()) == Seq::<char>::empty());
        assert(ts.push(t)[0] == t);
        assert(render_args(ts.push(t)) =~= render_args(ts) + " "@ + render_ty(t));
    } else {
        lemma_render_args_snoc(ts.drop_first(), t);
        assert(ts.push(t).drop_first() =~= ts.drop_first().push(t));
        assert(ts.push(t)[0] == ts[0]);
        assert(render_args(ts.push(t)) =~= render_args(ts) + " "@ + render_ty(t));
    }
}

/// The textual form of a polymorphic type: each quantifier is a `∀name.`
/// prefix before the inner rendering.
pub open spec fn render_poly(p: SpecPoly) -> Seq<char>
    decreases p,
{
    match p {
        SpecPoly::Mono { ty } => render_ty(ty),
        SpecPoly::Quan { name, inner } => seq!['∀'] + name + seq!['.'] + render_poly(*inner),
    }
}

impl MonoType {
    /// Render this type: `domain -> codomain` for arrows, `name arg1 arg2`
    /// for other constructors.
    #[verifier::loop_isolation(false)]
    pub fn render(&self) -> (r: String)
        requires
            arrows_wf(self@),
        ensures
            r@ == render_ty(self@),
        decreases size_ty(self@),
    {
        match self {
            MonoType::TyVar(name) => name.clone(),
            MonoType::TyApp(app) => {
                let ghost args = mono_seq_view(app.monotypes@);
                proof {
                    lemma_mono_seq_view(app.monotypes@);
                    lemma_arrows_wf_seq(args);
                }
                let arrow_name = "->".to_owned();
                if app.func == arrow_name && app.monotypes.len() == 2 {
                    proof {
                        lemma_size_seq_element(args, 0);
                        lemma_size_seq_element(args, 1);
                    }
                    let d = app.monotypes[0].render();
                    let c = app.monotypes[1].render();
                    let r = d.concat(" -> ").concat(c.as_str());
                    proof {
                        assert(r@ =~= render_ty(self@));
                    }
                    r
                } else {
                    let mut r = app.func.clone();
                    let n = app.monotypes.len();
                    let mut i: usize = 0;
                    while i < n
                        invariant
                            i <= n,
                            r@ == app.func@ + render_args(args.take(i as int)),
                        decreases n - i,
                    {
                        proof {
                            lemma_size_seq_element(args, i as int);
                        }
                        r.append(" ");
                        let piece = app.monotypes[i].render();
                        r.append(piece.as_str());
                        i += 1;
                        proof {
                            assert(app.monotypes@[i - 1]@ == args[i - 1]);
                            lemma_render_args_snoc(args.take(i - 1), args[i - 1]);
                            assert(args.take(i as int) =~= args.take(i - 1).push(args[i - 1]));
                            assert(r@ =~= app.func@ + render_args(args.take(i as int)));
                        }
                    }
                    proof {
                        assert(args.take(n as int) =~= args);
                        assert(render_ty(self@) == app.func@ + render_args(args));
                    }
                    r
                }
            },
        }
    }
}

/// `arrows_wf` through every quantifier.
pub open spec fn arrows_wf_poly(p: SpecPoly) -> bool
    decreases p,
{
    match p {
        SpecPoly::Mono { ty } => arrows_wf(ty),
        SpecPoly::Quan { name, inner } => arrows_wf_poly(*inner),
    }
}

impl PolyType {
    /// Render this polymorphic type: a `∀name.` prefix per quantifier, then
    /// the inner type.
    pub fn render(&self) -> (r: String)
        requires
            arrows_wf_poly(self@),
        ensures
            r@ == render_poly(self@),
        decreases self,
    {
        match self {
            PolyType::Mono(mono) => mono.render(),
            PolyType::TyQuantifier(quan) => {
                let mut r = String::new();
                crate::utils::push_char(&mut r, '∀');
                r.append(quan.bounded.as_str());
                crate::utils::push_char(&mut r, '.');
                let inner = quan.ty.render();
                r.append(inner.as_str());
                proof {
                    assert(r@ =~= render_poly(self@));
                }
                r
            },
        }
    }
}

// ---------------------------------------------------------------------------
// Generalization and instantiation
// ---------------------------------------------------------------------------

/// Wrap a monomorphic type in one quantifier per listed name; the last name
/// becomes the outermost binder.
pub open spec fn quantify(q: Seq<Seq<char>>, t: SpecMono) -> SpecPoly
    decreases q.len(),
{
    if q.len() == 0 {
        SpecPoly::Mono { ty: t }
    } else {
        SpecPoly::Quan { name: q.last(), inner: Box::new(quantify(q.drop_last(), t)) }
    }
}

/// No name appears twice.
pub open spec fn distinct_seq(q: Seq<Seq<char>>) -> bool {
    forall|i: int, j: int| 0 <= i < j < q.len() ==> q[i] != q[j]
}

impl MonoType {
    /// Close this monomorphic type into a polymorphic one by quantifying
    /// over exactly the type variables free in it but not in the context.
    #[verifier::loop_isolation(false)]
    pub fn generalise(&self, ctx: &Context) -> (r: PolyType)
        ensures
            exists|q: Seq<Seq<char>>|
                r@ == #[trigger] quantify(q, self@) && distinct_seq(q) && (forall|v: Seq<char>|
                    q.contains(v) <==> ftv_mono(self@).contains(v) && !ftv_ctx(ctx@).contains(v)),
    {
        let ty_vars = self.free_vars();
        let ctx_vars = ctx.free_vars();
        let mut acc = PolyType::Mono(self.clone());
        let ghost mut gq: Seq<Seq<char>> = Seq::empty();
        let n = ty_vars.len();
        let mut i: usize = 0;
        while i < n
            invariant
                i <= n,
                acc@ == quantify(gq, self@),
                distinct_seq(gq),
                forall|v: Seq<char>|
                    gq.contains(v) <==> !ftv_ctx(ctx@).contains(v) && (exists|j: int|
                        0 <= j < i && (#[trigger] ty_vars@[j])@ == v),
            decreases n - i,
        {
            let ghost gq_pre = gq;
            let in_ctx = has_name(&ctx_vars, &ty_vars[i]);
            if !in_ctx {
                acc = PolyType::TyQuantifier(
                    TypeQuantifier { bounded: ty_vars[i].clone(), ty: Box::new(acc) },
                );
                proof {
                    gq = gq.push(ty_vars@[i as int]@);
                    assert(gq.drop_last() =~= gq_pre);
                    assert(gq.last() == ty_vars@[i as int]@);
                    assert(acc@ == quantify(gq, self@));
                }
            }
            i += 1;
            proof {
                assert forall|v: Seq<char>|
                    gq.contains(v) == (!ftv_ctx(ctx@).contains(v) && (exists|j: int|
                        0 <= j < i && (#[trigger] ty_vars@[j])@ == v)) by {
                    if gq.contains(v) {
                        let k = choose|k: int| 0 <= k < gq.len() && gq[k] == v;
                        if k < gq_pre.len() {
                            assert(gq_pre[k] == v);
                            assert(gq_pre.contains(v));
                        } else {
                            assert(v == ty_vars@[i - 1]@);
                            assert(!in_ctx);
                            assert(!name_set(ctx_vars@).contains(v));
                        }
                    }
                    if gq_pre.contains(v) {
                        let k = choose|k: int| 0 <= k < gq_pre.len() && gq_pre[k] == v;
                        assert(gq[k] == v);
                        assert(gq.contains(v));
                    }
                    if !ftv_ctx(ctx@).contains(v) && (exists|j: int|
                        0 <= j < i && (#[trigger] ty_vars@[j])@ == v) {
                        let j = choose|j: int| 0 <= j < i && (#[trigger] ty_vars@[j])@ == v;
                        if j < i - 1 {
                            assert(gq_pre.contains(v));
                        } else {
                            assert(!name_set(ctx_vars@).contains(v));
                            assert(!in_ctx);
                            assert(gq[gq.len() - 1] == v);
                            assert(gq.contains(v));
                        }
                    }
                }
                // Distinctness: the pushed name was not listed before.
                assert forall|a: int, b: int| 0 <= a < b < gq.len() implies gq[a] != gq[b] by {
                    if b == gq.len() - 1 && gq.len() > gq_pre.len() {
                        assert(gq_pre[a] == gq[a]);
                        if gq_pre.contains(gq[b]) {
                            let k = choose|k: int| 0 <= k < gq_pre.len() && gq_pre[k] == gq[b];
                            let j = choose|j: int|
                                0 <= j < i - 1 && (#[trigger] ty_vars@[j])@ == gq[b];
                            assert(ty_vars@[j]@ == ty_vars@[i - 1]@);
                            assert(distinct_names(ty_vars@));
                        }
                        assert(!gq_pre.contains(gq[b]));
                        if gq[a] == gq[b] {
                            assert(gq_pre.contains(gq[b]));
                        }
                    } else if b < gq_pre.len() {
                        assert(gq_pre[a] == gq[a] && gq_pre[b] == gq[b]);
                    }
                }
            }
        }
        proof {
            assert forall|v: Seq<char>|
                gq.contains(v) == (ftv_mono(self@).contains(v) && !ftv_ctx(ctx@).contains(v)) by {
                if ftv_mono(self@).contains(v) {
                    assert(name_set(ty_vars@).contains(v));
                }
                if exists|j: int| 0 <= j < n && (#[trigger] ty_vars@[j])@ == v {
                    assert(name_set(ty_vars@).contains(v));
                }
            }
        }
        acc
    }
}

/// The number of quantifiers of a polymorphic type.
pub open spec fn quan_count(p: SpecPoly) -> nat
    decreases p,
{
    match p {
        SpecPoly::Mono { ty } => 0,
        SpecPoly::Quan { name, inner } => 1 + quan_count(*inner),
    }
}

/// The monomorphic type under all the quantifiers.
pub open spec fn leaf_ty(p: SpecPoly) -> SpecMono
    decreases p,
{
    match p {
        SpecPoly::Mono { ty } => ty,
        SpecPoly::Quan { name, inner } => leaf_ty(*inner),
    }
}

impl Context {
    /// A copy of this context with one more binding; an existing binding for
    /// the same name is shadowed.
    pub fn extend_with(&self, k: String, v: PolyType) -> (r: Context)
        ensures
            r@ == self@.insert(k@, v@),
    {
        let ghost gk = k@;
        let ghost gv = v@;
        let mut new_ctx = self.clone();
        let ghost pre = new_ctx.constrains@;
        let ghost prev_view = new_ctx@;
        new_ctx.constrains.push((k, v));
        proof {
            assert(new_ctx.constrains@.drop_last() =~= pre);
            assert(new_ctx.constrains@.last().0@ == gk && new_ctx.constrains@.last().1@ == gv);
            assert(new_ctx@ == prev_view.insert(gk, gv));
        }
        new_ctx
    }

    /// The binding for a term-variable name, if any.
    #[verifier::loop_isolation(false)]
    pub fn find(&self, name: &String) -> (r: Option<&PolyType>)
        ensures
            match r {
                Some(p) => self@.dom().contains(name@) && p@ == self@[name@],
                None => !self@.dom().contains(name@),
            },
    {
        let n = self.constrains.len();
        let mut i: usize = n;
        while i > 0
            invariant
                i <= n,
                forall|j: int| i <= j < n ==> (#[trigger] self.constrains@[j].0)@ != name@,
            decreases i,
        {
            i -= 1;
            if self.constrains[i].0 == *name {
                proof {
                    let f = |p: PolyType| p@;
                    crate::utils::lemma_assoc_view_take(self.constrains@, f, name@, i + 1);
                    let prefix = self.constrains@.take(i + 1);
                    assert(prefix.drop_last() =~= self.constrains@.take(i as int));
                    assert(prefix.last() == self.constrains@[i as int]);
                }
                return Some(&self.constrains[i].1);
            }
        }
        proof {
            let f = |p: PolyType| p@;
            crate::utils::lemma_assoc_view_take(self.constrains@, f, name@, 0);
            assert(self.constrains@.take(0) =~= Seq::empty());
        }
        None
    }
}

/// Two association lists with pairwise equal keys and equal mapped values
/// denote the same map.
pub proof fn lemma_assoc_view_congruent<T, SV>(
    a: Seq<(String, T)>,
    b: Seq<(String, T)>,
    f: spec_fn(T) -> SV,
    g: spec_fn(T) -> SV,
)
    requires
        a.len() == b.len(),
        forall|j: int| 0 <= j < a.len() ==> a[j].0@ == #[trigger] b[j].0@ && f(a[j].1) == g(b[j].1),
    ensures
        assoc_view(a, f) == assoc_view(b, g),
    decreases a,
{
    if a.len() > 0 {
        assert forall|j: int| 0 <= j < a.drop_last().len() implies a.drop_last()[j].0@
            == #[trigger] b.drop_last()[j].0@ && f(a.drop_last()[j].1) == g(b.drop_last()[j].1) by {
            assert(a.drop_last()[j] == a[j]);
            assert(b.drop_last()[j] == b[j]);
        }
        lemma_assoc_view_congruent(a.drop_last(), b.drop_last(), f, g);
        assert(a.last() == a[a.len() - 1]);
        assert(b.last() == b[b.len() - 1]);
        assert(assoc_view(a, f) =~= assoc_view(b, g));
    }
}

} // verus!
