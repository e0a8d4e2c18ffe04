use liquid_rust::check::env::{Env, Fact, TyError};
use liquid_rust::check::subtype::{entail, subtype};
use liquid_rust::fixpoint::constraint::{Constraint, KVid};
use liquid_rust::fixpoint::gather::KVarGatherCtx;
use liquid_rust::mir::{Constant, Local, Place};
use liquid_rust::ty::context::TyCtxt;
use liquid_rust::ty::{
    BaseTy, BinOp, BorrowKind, Field, GhostVar, Kvar, Path, Pred, PredKind, Refine, Region, Tuple,
    Ty, TyKind, Var,
};

fn var(tcx: &mut TyCtxt, v: Var) -> Pred {
    tcx.mk_pred(PredKind::Path(Path::new(v, vec![]))).unwrap()
}

fn num(tcx: &mut TyCtxt, n: u128) -> Pred {
    tcx.mk_pred(PredKind::Const(Constant::Int(n))).unwrap()
}

fn rel(tcx: &mut TyCtxt, op: BinOp, a: Pred, b: Pred) -> Pred {
    tcx.mk_pred(PredKind::BinaryOp(op, a, b)).unwrap()
}

/// `{ int | v op n }`
fn int_where(tcx: &mut TyCtxt, op: BinOp, n: u128) -> Ty {
    let nu = var(tcx, Var::Nu);
    let k = num(tcx, n);
    let p = rel(tcx, op, nu, k);
    tcx.mk_ty(TyKind::Refined(BaseTy::Int, Refine::Pred(p))).unwrap()
}

fn empty_env() -> Env {
    Env { heap: vec![], locals: vec![] }
}

fn text(c: &Constraint) -> String {
    let mut w = String::new();
    c.emit(&mut w, 0);
    w
}

#[test]
fn refined_against_refined() {
    let mut tcx = TyCtxt::new();
    let sub = int_where(&mut tcx, BinOp::Gt, 5);
    let sup = int_where(&mut tcx, BinOp::Gte, 0);
    let c = subtype(&tcx, &empty_env(), sub, sup).unwrap();
    assert_eq!(text(&c), "(forall ((v0 int) (v0 > 5)) ((v0 >= 0)))");
}

#[test]
fn reflexive_judgment_repeats_its_premise() {
    let mut tcx = TyCtxt::new();
    let t = int_where(&mut tcx, BinOp::Eq(BaseTy::Int), 3);
    let c = subtype(&tcx, &empty_env(), t, t).unwrap();
    assert_eq!(text(&c), "(forall ((v0 int) (v0 = 3)) ((v0 = 3)))");
}

#[test]
fn base_types_must_agree() {
    let mut tcx = TyCtxt::new();
    let tt = tcx.mk_pred(PredKind::Const(Constant::Bool(true))).unwrap();
    let int = tcx.mk_ty(TyKind::Refined(BaseTy::Int, Refine::Pred(tt))).unwrap();
    let boolean = tcx.mk_ty(TyKind::Refined(BaseTy::Bool, Refine::Pred(tt))).unwrap();
    let raw = tcx.mk_ty(TyKind::Uninit(4)).unwrap();
    let wide = tcx.mk_ty(TyKind::Uninit(8)).unwrap();
    assert_eq!(subtype(&tcx, &empty_env(), int, boolean).err(), Some(TyError::ShapeMismatch));
    assert_eq!(subtype(&tcx, &empty_env(), int, raw).err(), Some(TyError::ShapeMismatch));
    assert_eq!(subtype(&tcx, &empty_env(), raw, wide).err(), Some(TyError::ShapeMismatch));
    let c = subtype(&tcx, &empty_env(), raw, raw).unwrap();
    assert_eq!(text(&c), "((true))");
}

#[test]
fn unknown_supertype_becomes_an_application() {
    let mut tcx = TyCtxt::new();
    let g = GhostVar(0);
    let heap_ty = int_where(&mut tcx, BinOp::Gte, 0);
    let env = Env {
        heap: vec![Fact { var: g, ty: heap_ty, aliases: vec![] }],
        locals: vec![(Local(1), g)],
    };
    let sub = int_where(&mut tcx, BinOp::Eq(BaseTy::Int), 3);
    let k = Kvar { id: KVid::from_usize(7), vars: vec![Var::Nu, Var::GhostVar(g)] };
    let sup = tcx.mk_ty(TyKind::Refined(BaseTy::Int, Refine::Infer(k))).unwrap();
    let c = subtype(&tcx, &env, sub, sup).unwrap();
    assert_eq!(
        text(&c),
        "(forall ((v0 int) (v0 >= 0)) (forall ((v1 int) (v1 = 3)) (($k7 v1 v0))))"
    );
    let kvars = KVarGatherCtx::gather_kvars(&c).unwrap();
    assert_eq!(kvars.len(), 1);
    let mut w = String::new();
    kvars[0].emit(&mut w);
    assert_eq!(w, "(declare $k7 ((int) (int)))");
}

#[test]
fn tuple_fields_see_the_fields_before_them() {
    let mut tcx = TyCtxt::new();
    let tt = tcx.mk_pred(PredKind::Const(Constant::Bool(true))).unwrap();
    let int = tcx.mk_ty(TyKind::Refined(BaseTy::Int, Refine::Pred(tt))).unwrap();
    let nu = var(&mut tcx, Var::Nu);
    let first = var(&mut tcx, Var::Field(Field(0)));
    let gt = rel(&mut tcx, BinOp::Gt, nu, first);
    let gte = rel(&mut tcx, BinOp::Gte, nu, first);
    let above = tcx.mk_ty(TyKind::Refined(BaseTy::Int, Refine::Pred(gt))).unwrap();
    let not_below = tcx.mk_ty(TyKind::Refined(BaseTy::Int, Refine::Pred(gte))).unwrap();
    let sub = tcx.mk_ty(TyKind::Tuple(Tuple(vec![(Field(0), int), (Field(1), above)]))).unwrap();
    let sup = tcx.mk_ty(TyKind::Tuple(Tuple(vec![(Field(0), int), (Field(1), not_below)]))).unwrap();
    let c = subtype(&tcx, &empty_env(), sub, sup).unwrap();
    assert_eq!(
        text(&c),
        "(forall ((v0 int) (true)) (forall ((v1 int) (v1 > v0)) (and ((true)) ((v1 >= v0)))))"
    );
    let short = tcx.mk_ty(TyKind::Tuple(Tuple(vec![(Field(0), int)]))).unwrap();
    assert_eq!(subtype(&tcx, &empty_env(), sub, short).err(), Some(TyError::ShapeMismatch));
}

#[test]
fn region_outside_the_target_is_unsatisfiable_not_an_error() {
    let mut tcx = TyCtxt::new();
    let g = GhostVar(0);
    let pointee = int_where(&mut tcx, BinOp::Gt, 0);
    let env = Env {
        heap: vec![Fact { var: g, ty: pointee, aliases: vec![] }],
        locals: vec![],
    };
    let a = Place { local: Local(1), projs: vec![] };
    let b = Place { local: Local(2), projs: vec![] };
    let narrow = tcx
        .mk_ty(TyKind::Ref(BorrowKind::Shared, Region::Concrete(vec![a.clone()]), g))
        .unwrap();
    let wide = tcx
        .mk_ty(TyKind::Ref(BorrowKind::Shared, Region::Concrete(vec![b.clone(), a.clone()]), g))
        .unwrap();
    let unique = tcx.mk_ty(TyKind::Ref(BorrowKind::Mut, Region::Concrete(vec![a]), g)).unwrap();
    let inside = subtype(&tcx, &env, narrow, wide).unwrap();
    assert_eq!(text(&inside), "(forall ((v0 int) (v0 > 0)) ((v0 > 0)))");
    let outside = subtype(&tcx, &env, wide, narrow).unwrap();
    assert_eq!(text(&outside), "(forall ((v0 int) (v0 > 0)) (and ((false)) ((v0 > 0))))");
    assert_eq!(subtype(&tcx, &env, narrow, unique).err(), Some(TyError::ShapeMismatch));
}

#[test]
fn names_must_be_in_scope() {
    let mut tcx = TyCtxt::new();
    let nu = var(&mut tcx, Var::Nu);
    let stray = var(&mut tcx, Var::GhostVar(GhostVar(9)));
    let p = rel(&mut tcx, BinOp::Lt, nu, stray);
    let t = tcx.mk_ty(TyKind::Refined(BaseTy::Int, Refine::Pred(p))).unwrap();
    assert_eq!(
        subtype(&tcx, &empty_env(), t, t).err(),
        Some(TyError::UnboundVar(Var::GhostVar(GhostVar(9))))
    );
    let deep = tcx.mk_pred(PredKind::Path(Path::new(Var::Nu, vec![0]))).unwrap();
    let q = rel(&mut tcx, BinOp::Lt, deep, nu);
    let u = tcx.mk_ty(TyKind::Refined(BaseTy::Int, Refine::Pred(q))).unwrap();
    assert_eq!(subtype(&tcx, &empty_env(), u, u).err(), Some(TyError::Projection(Var::Nu)));
}

/// `{ int | v == <path> }`
fn equal_to(tcx: &mut TyCtxt, base: Var, projs: Vec<usize>) -> Ty {
    let nu = var(tcx, Var::Nu);
    let path = tcx.mk_pred(PredKind::Path(Path::new(base, projs))).unwrap();
    let eq = rel(tcx, BinOp::Eq(BaseTy::Int), nu, path);
    tcx.mk_ty(TyKind::Refined(BaseTy::Int, Refine::Pred(eq))).unwrap()
}

#[test]
fn projections_lead_to_the_parts_of_a_tuple() {
    // g: (a: bool, b: (c: int, d: {v > c}), e: int)
    let mut tcx = TyCtxt::new();
    let tt = tcx.mk_pred(PredKind::Const(Constant::Bool(true))).unwrap();
    let int = tcx.mk_ty(TyKind::Refined(BaseTy::Int, Refine::Pred(tt))).unwrap();
    let flag = tcx.mk_ty(TyKind::Refined(BaseTy::Bool, Refine::Pred(tt))).unwrap();
    let nu = var(&mut tcx, Var::Nu);
    let c = var(&mut tcx, Var::Field(Field(2)));
    let gt = rel(&mut tcx, BinOp::Gt, nu, c);
    let above = tcx.mk_ty(TyKind::Refined(BaseTy::Int, Refine::Pred(gt))).unwrap();
    let inner = tcx.mk_ty(TyKind::Tuple(Tuple(vec![(Field(2), int), (Field(3), above)]))).unwrap();
    let outer = tcx
        .mk_ty(TyKind::Tuple(Tuple(vec![(Field(0), flag), (Field(1), inner), (Field(4), int)])))
        .unwrap();
    let g = GhostVar(0);
    let env = Env { heap: vec![Fact { var: g, ty: outer, aliases: vec![] }], locals: vec![] };
    let heap = "(forall ((v0 bool) (true)) (forall ((v1 int) (true)) (forall ((v2 int) (v2 > v1)) \
                (forall ((v3 int) (true)) ";
    let judgment = |tcx: &mut TyCtxt, projs: Vec<usize>| {
        let t = equal_to(tcx, Var::GhostVar(g), projs);
        subtype(tcx, &env, t, t).map(|c| text(&c))
    };
    assert_eq!(
        judgment(&mut tcx, vec![1, 0]).unwrap(),
        format!("{}(forall ((v4 int) (v4 = v1)) ((v4 = v1)))))))", heap)
    );
    assert_eq!(
        judgment(&mut tcx, vec![1, 1]).unwrap(),
        format!("{}(forall ((v4 int) (v4 = v2)) ((v4 = v2)))))))", heap)
    );
    assert_eq!(
        judgment(&mut tcx, vec![2]).unwrap(),
        format!("{}(forall ((v4 int) (v4 = v3)) ((v4 = v3)))))))", heap)
    );
    assert_eq!(
        judgment(&mut tcx, vec![0]).unwrap(),
        format!("{}(forall ((v4 int) (v4 = v0)) ((v4 = v0)))))))", heap)
    );
    // A whole tuple is no value, a projection past the last field or into
    // an integer leads nowhere.
    assert_eq!(judgment(&mut tcx, vec![1]), Err(TyError::NotAValue(Var::GhostVar(g))));
    assert_eq!(judgment(&mut tcx, vec![]), Err(TyError::NotAValue(Var::GhostVar(g))));
    assert_eq!(judgment(&mut tcx, vec![3]), Err(TyError::Projection(Var::GhostVar(g))));
    assert_eq!(judgment(&mut tcx, vec![2, 0]), Err(TyError::Projection(Var::GhostVar(g))));
    assert_eq!(judgment(&mut tcx, vec![1, 2]), Err(TyError::Projection(Var::GhostVar(g))));
}

#[test]
fn widths_of_types() {
    let mut tcx = TyCtxt::new();
    let tt = tcx.mk_pred(PredKind::Const(Constant::Bool(true))).unwrap();
    let int = tcx.mk_ty(TyKind::Refined(BaseTy::Int, Refine::Pred(tt))).unwrap();
    let raw = tcx.mk_ty(TyKind::Uninit(4)).unwrap();
    let pair = tcx.mk_ty(TyKind::Tuple(Tuple(vec![(Field(0), int), (Field(1), raw)]))).unwrap();
    let nested = tcx
        .mk_ty(TyKind::Tuple(Tuple(vec![(Field(2), pair), (Field(3), int), (Field(4), pair)])))
        .unwrap();
    assert_eq!(tcx.width(int), Some(1));
    assert_eq!(tcx.width(raw), Some(0));
    assert_eq!(tcx.width(pair), Some(1));
    assert_eq!(tcx.width(nested), Some(3));
    assert_eq!(tcx.fields_width(nested, 0), Some(0));
    assert_eq!(tcx.fields_width(nested, 2), Some(2));
    assert!(tcx.is_refined(int));
    assert!(!tcx.is_refined(pair));
    assert_eq!(tcx.part(nested, &vec![0, 1], 0), Some(raw));
    assert_eq!(tcx.part(nested, &vec![0, 1], 2), Some(nested));
    assert_eq!(tcx.part(nested, &vec![0, 2], 0), None);
    assert_eq!(tcx.offset(nested, &vec![2, 0], 0), Some(2));
    assert_eq!(tcx.offset(nested, &vec![1], 0), Some(1));
}

#[test]
fn each_predecessor_discharges_on_its_own() {
    // Two predecessors of a block that expects `{v | v >= 0}`: one provides
    // `{v | v > 5}`, the other `{v | v == 0}`.
    let mut tcx = TyCtxt::new();
    let expected = int_where(&mut tcx, BinOp::Gte, 0);
    let target_var = GhostVar(100);
    let target_heap = vec![Fact { var: target_var, ty: expected, aliases: vec![] }];
    let mut texts = vec![];
    for (op, n) in [(BinOp::Gt, 5u128), (BinOp::Eq(BaseTy::Int), 0u128)] {
        let provided = int_where(&mut tcx, op, n);
        let g = GhostVar(0);
        let env = Env {
            heap: vec![Fact { var: g, ty: provided, aliases: vec![] }],
            locals: vec![(Local(1), g)],
        };
        let c = entail(
            &tcx,
            &env,
            &vec![(target_var, g)],
            &vec![g],
            &vec![expected],
            &target_heap,
            None,
        )
        .unwrap();
        texts.push(text(&c));
    }
    assert_eq!(texts[0], "(forall ((v0 int) (v0 > 5)) ((v0 >= 0)))");
    assert_eq!(texts[1], "(forall ((v0 int) (v0 = 0)) ((v0 >= 0)))");
}

#[test]
fn pointee_is_read_with_the_aliases_of_its_entry() {
    // The pointee's type was written where `h` stood for `x`. It is read
    // that way again, although a ghost variable `h` is in scope.
    let mut tcx = TyCtxt::new();
    let x = GhostVar(0);
    let h = GhostVar(1);
    let p = GhostVar(2);
    let one = int_where(&mut tcx, BinOp::Eq(BaseTy::Int), 1);
    let two = int_where(&mut tcx, BinOp::Eq(BaseTy::Int), 2);
    let nu = var(&mut tcx, Var::Nu);
    let other = var(&mut tcx, Var::GhostVar(h));
    let gt = rel(&mut tcx, BinOp::Gt, nu, other);
    let above = tcx.mk_ty(TyKind::Refined(BaseTy::Int, Refine::Pred(gt))).unwrap();
    let env = Env {
        heap: vec![
            Fact { var: x, ty: one, aliases: vec![] },
            Fact { var: h, ty: two, aliases: vec![] },
            Fact { var: p, ty: above, aliases: vec![(h, x)] },
        ],
        locals: vec![],
    };
    let reference = tcx
        .mk_ty(TyKind::Ref(BorrowKind::Shared, Region::Concrete(vec![]), p))
        .unwrap();
    let c = subtype(&tcx, &env, reference, reference).unwrap();
    assert_eq!(
        text(&c),
        "(forall ((v0 int) (v0 = 1)) (forall ((v1 int) (v1 = 2)) (forall ((v2 int) (v2 > v0)) ((v2 > v0)))))"
    );
}

#[test]
fn a_reused_ghost_variable_hides_the_one_a_pointee_was_bound_with() {
    // `g0` is in the heap twice. The pointee `p` was bound while only the
    // first was in scope; read again it sees the second.
    let mut tcx = TyCtxt::new();
    let g0 = GhostVar(0);
    let p = GhostVar(1);
    let one = int_where(&mut tcx, BinOp::Eq(BaseTy::Int), 1);
    let five = int_where(&mut tcx, BinOp::Eq(BaseTy::Int), 5);
    let nu = var(&mut tcx, Var::Nu);
    let first = var(&mut tcx, Var::GhostVar(g0));
    let gt = rel(&mut tcx, BinOp::Gt, nu, first);
    let above = tcx.mk_ty(TyKind::Refined(BaseTy::Int, Refine::Pred(gt))).unwrap();
    let env = Env {
        heap: vec![
            Fact { var: g0, ty: one, aliases: vec![] },
            Fact { var: p, ty: above, aliases: vec![] },
            Fact { var: g0, ty: five, aliases: vec![] },
        ],
        locals: vec![],
    };
    let reference = tcx
        .mk_ty(TyKind::Ref(BorrowKind::Shared, Region::Concrete(vec![]), p))
        .unwrap();
    let c = subtype(&tcx, &env, reference, reference).unwrap();
    assert_eq!(
        text(&c),
        "(forall ((v0 int) (v0 = 1)) (forall ((v1 int) (v1 > v0)) (forall ((v2 int) (v2 = 5)) ((v1 > v2)))))"
    );
}

#[test]
fn reflexive_judgment_on_a_tuple_repeats_its_premises() {
    let mut tcx = TyCtxt::new();
    let tt = tcx.mk_pred(PredKind::Const(Constant::Bool(true))).unwrap();
    let int = tcx.mk_ty(TyKind::Refined(BaseTy::Int, Refine::Pred(tt))).unwrap();
    let nu = var(&mut tcx, Var::Nu);
    let first = var(&mut tcx, Var::Field(Field(0)));
    let gt = rel(&mut tcx, BinOp::Gt, nu, first);
    let above = tcx.mk_ty(TyKind::Refined(BaseTy::Int, Refine::Pred(gt))).unwrap();
    let pair = tcx.mk_ty(TyKind::Tuple(Tuple(vec![(Field(0), int), (Field(1), above)]))).unwrap();
    let c = subtype(&tcx, &empty_env(), pair, pair).unwrap();
    assert_eq!(
        text(&c),
        "(forall ((v0 int) (true)) (forall ((v1 int) (v1 > v0)) (and ((true)) ((v1 > v0)))))"
    );
}
