use liquid_rust::fixpoint::constraint::KVid;
use liquid_rust::mir::{Constant, Local, Place, PlaceElem};
use liquid_rust::ty::context::TyCtxt;
use liquid_rust::ty::{
    BaseTy, BinOp, BorrowKind, Field, GhostVar, Kvar, Path, Pred, PredKind, Refine, Region,
    RegionVid, Tuple, Ty, TyKind, UnOp, UniversalRegion, Var,
};

fn path(tcx: &mut TyCtxt, base: Var, projs: Vec<usize>) -> Pred {
    tcx.mk_pred(PredKind::Path(Path::new(base, projs))).unwrap()
}

fn lit(tcx: &mut TyCtxt, n: u128) -> Pred {
    tcx.mk_pred(PredKind::Const(Constant::Int(n))).unwrap()
}

fn bin(tcx: &mut TyCtxt, op: BinOp, a: Pred, b: Pred) -> Pred {
    tcx.mk_pred(PredKind::BinaryOp(op, a, b)).unwrap()
}

fn refined(tcx: &mut TyCtxt, base: BaseTy, p: Pred) -> Ty {
    tcx.mk_ty(TyKind::Refined(base, Refine::Pred(p))).unwrap()
}

#[test]
fn index_names() {
    assert_eq!(GhostVar(3).to_string(), "g3");
    assert_eq!(Field(0).to_string(), "@0");
    assert_eq!(RegionVid(12).to_string(), "$r12");
    assert_eq!(UniversalRegion(1).to_string(), "'1");
    assert_eq!(Var::Nu.to_string(), "v");
    assert_eq!(Var::GhostVar(GhostVar(7)).to_string(), "g7");
    assert_eq!(Var::Field(Field(2)).to_string(), "@2");
    assert_eq!(BaseTy::Int.to_string(), "int");
    assert_eq!(BaseTy::Bool.to_string(), "bool");
}

#[test]
fn operators_for_readers() {
    assert_eq!(BinOp::Eq(BaseTy::Int).to_string(), "==");
    assert_eq!(BinOp::Neq(BaseTy::Bool).to_string(), "!=");
    assert_eq!(BinOp::Rem.to_string(), "%");
    assert_eq!(BinOp::And.to_string(), "&&");
    assert_eq!(BinOp::Or.to_string(), "||");
    assert_eq!(BinOp::Lte.to_string(), "<=");
    assert_eq!(BinOp::Gte.to_string(), ">=");
    assert_eq!(UnOp::Not.to_string(), "!");
    assert_eq!(UnOp::Neg.to_string(), "-");
}

#[test]
fn paths() {
    let p = Path::new(Var::GhostVar(GhostVar(1)), vec![]);
    assert_eq!(p.to_string(), "g1");
    let q = p.extend(0).extend(3);
    assert_eq!(q.to_string(), "g1.0.3");
    assert_eq!(q.base, Var::GhostVar(GhostVar(1)));
    assert_eq!(q.projs, vec![0, 3]);
    assert_eq!(p.projs, Vec::<usize>::new());
}

#[test]
fn predicates_are_fully_parenthesized() {
    let mut tcx = TyCtxt::new();
    let nu = path(&mut tcx, Var::Nu, vec![]);
    let g = path(&mut tcx, Var::GhostVar(GhostVar(0)), vec![1]);
    let one = lit(&mut tcx, 1);
    let sum = bin(&mut tcx, BinOp::Add, g, one);
    let eq = bin(&mut tcx, BinOp::Eq(BaseTy::Int), nu, sum);
    assert_eq!(tcx.pred_to_string(eq), "(v == (g0.1 + 1))");
    let not = tcx.mk_pred(PredKind::UnaryOp(UnOp::Not, eq)).unwrap();
    assert_eq!(tcx.pred_to_string(not), "!(v == (g0.1 + 1))");
    let neg = tcx.mk_pred(PredKind::UnaryOp(UnOp::Neg, nu)).unwrap();
    assert_eq!(tcx.pred_to_string(neg), "-v");
}

#[test]
fn refined_types() {
    let mut tcx = TyCtxt::new();
    let tt = tcx.mk_pred(PredKind::Const(Constant::Bool(true))).unwrap();
    let ff = tcx.mk_pred(PredKind::Const(Constant::Bool(false))).unwrap();
    let int = refined(&mut tcx, BaseTy::Int, tt);
    assert_eq!(tcx.ty_to_string(int), "int");
    let never = refined(&mut tcx, BaseTy::Bool, ff);
    assert_eq!(tcx.ty_to_string(never), "{ bool | false }");
    let nu = path(&mut tcx, Var::Nu, vec![]);
    let zero = lit(&mut tcx, 0);
    let gt = bin(&mut tcx, BinOp::Gt, nu, zero);
    let pos = refined(&mut tcx, BaseTy::Int, gt);
    assert_eq!(tcx.ty_to_string(pos), "{ int | (v > 0) }");
    let k = Kvar { id: KVid::from_usize(2), vars: vec![Var::Nu, Var::GhostVar(GhostVar(1))] };
    assert_eq!(k.to_string(), "$k2[v, g1]");
    let unknown = tcx.mk_ty(TyKind::Refined(BaseTy::Int, Refine::Infer(k))).unwrap();
    assert_eq!(tcx.ty_to_string(unknown), "{ int | $k2[v, g1] }");
    let none = Kvar { id: KVid::from_usize(0), vars: vec![] };
    assert_eq!(none.to_string(), "$k0[]");
}

#[test]
fn regions_and_references() {
    let mut tcx = TyCtxt::new();
    let a = Place { local: Local(1), projs: vec![] };
    let b = Place { local: Local(2), projs: vec![PlaceElem::Field(0), PlaceElem::Deref] };
    assert_eq!(a.to_string(), "_1");
    assert_eq!(b.to_string(), "_2.0.*");
    assert_eq!(Region::Concrete(vec![]).to_string(), "{  }");
    assert_eq!(Region::Concrete(vec![a.clone()]).to_string(), "{ _1 }");
    assert_eq!(Region::Concrete(vec![a.clone(), b.clone()]).to_string(), "{ _1, _2.0.* }");
    assert_eq!(Region::Abstract(UniversalRegion(0)).to_string(), "'0");
    assert_eq!(Region::Infer(RegionVid(4)).to_string(), "$r4");
    let shared = tcx
        .mk_ty(TyKind::Ref(BorrowKind::Shared, Region::Concrete(vec![a]), GhostVar(3)))
        .unwrap();
    assert_eq!(tcx.ty_to_string(shared), "&{ _1 } g3");
    let unique = tcx
        .mk_ty(TyKind::Ref(BorrowKind::Mut, Region::Abstract(UniversalRegion(0)), GhostVar(5)))
        .unwrap();
    assert_eq!(tcx.ty_to_string(unique), "&'0 mut g5");
    let raw = tcx.mk_ty(TyKind::Uninit(8)).unwrap();
    assert_eq!(tcx.ty_to_string(raw), "uninit(8)");
}

#[test]
fn tuples() {
    let mut tcx = TyCtxt::new();
    let tt = tcx.mk_pred(PredKind::Const(Constant::Bool(true))).unwrap();
    let int = refined(&mut tcx, BaseTy::Int, tt);
    let nu = path(&mut tcx, Var::Nu, vec![]);
    let first = path(&mut tcx, Var::Field(Field(0)), vec![]);
    let gt = bin(&mut tcx, BinOp::Gt, nu, first);
    let above = refined(&mut tcx, BaseTy::Int, gt);
    let unit = tcx.mk_ty(TyKind::Tuple(Tuple(vec![]))).unwrap();
    assert_eq!(tcx.ty_to_string(unit), "()");
    let single = tcx.mk_ty(TyKind::Tuple(Tuple(vec![(Field(0), int)]))).unwrap();
    assert_eq!(tcx.ty_to_string(single), "(@@0: int)");
    let pair = tcx.mk_ty(TyKind::Tuple(Tuple(vec![(Field(0), int), (Field(1), above)]))).unwrap();
    assert_eq!(tcx.ty_to_string(pair), "(@@0: int, @@1: { int | (v > @0) })");
    let nested = tcx.mk_ty(TyKind::Tuple(Tuple(vec![(Field(2), pair), (Field(3), unit)]))).unwrap();
    assert_eq!(tcx.ty_to_string(nested), "(@@2: (@@0: int, @@1: { int | (v > @0) }), @@3: ())");
}
