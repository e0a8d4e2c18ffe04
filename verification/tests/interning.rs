use liquid_rust::mir::Constant;
use liquid_rust::ty::context::TyCtxt;
use liquid_rust::ty::{BaseTy, BinOp, Field, Path, PredKind, Refine, Tuple, Ty, TyKind, Var};

fn nu_gt_zero(tcx: &mut TyCtxt) -> liquid_rust::ty::Pred {
    let nu = tcx.mk_pred(PredKind::Path(Path::new(Var::Nu, vec![]))).unwrap();
    let zero = tcx.mk_pred(PredKind::Const(Constant::Int(0))).unwrap();
    tcx.mk_pred(PredKind::BinaryOp(BinOp::Gt, nu, zero)).unwrap()
}

#[test]
fn same_structure_same_handle() {
    let mut tcx = TyCtxt::new();
    let a = nu_gt_zero(&mut tcx);
    let n = tcx.len();
    let b = nu_gt_zero(&mut tcx);
    assert_eq!(a, b);
    assert_eq!(tcx.len(), n);
    assert_eq!(n, 3);
    let one = tcx.mk_pred(PredKind::Const(Constant::Int(1))).unwrap();
    assert_ne!(one, a);
    assert_eq!(tcx.len(), 4);
}

#[test]
fn types_are_interned_once() {
    let mut tcx = TyCtxt::new();
    let p = nu_gt_zero(&mut tcx);
    let t1 = tcx.mk_ty(TyKind::Refined(BaseTy::Int, Refine::Pred(p))).unwrap();
    let t2 = tcx.mk_ty(TyKind::Refined(BaseTy::Int, Refine::Pred(p))).unwrap();
    let t3 = tcx.mk_ty(TyKind::Refined(BaseTy::Bool, Refine::Pred(p))).unwrap();
    assert_eq!(t1, t2);
    assert_ne!(t1, t3);
    assert!(tcx.contains_ty(t1));
    assert!(!tcx.contains_pred(liquid_rust::ty::Pred { index: t1.index }));
    assert!(tcx.contains_pred(p));
    assert!(matches!(tcx.ty(t1).kind(), TyKind::Refined(BaseTy::Int, Refine::Pred(q)) if *q == p));
    assert!(matches!(tcx.pred(p).kind(), PredKind::BinaryOp(BinOp::Gt, _, _)));
}

#[test]
fn many_nodes_keep_their_handles() {
    let mut tcx = TyCtxt::new();
    let mut handles = vec![];
    for n in 0..200u128 {
        handles.push(tcx.mk_pred(PredKind::Const(Constant::Int(n))).unwrap());
    }
    for n in 0..200u128 {
        let again = tcx.mk_pred(PredKind::Const(Constant::Int(n))).unwrap();
        assert_eq!(again, handles[n as usize]);
        assert!(matches!(tcx.pred(again).kind(), PredKind::Const(Constant::Int(m)) if *m == n));
    }
    assert_eq!(tcx.len(), 200);
}

#[test]
fn unknown_handles_are_refused() {
    let mut tcx = TyCtxt::new();
    let stray = liquid_rust::ty::Pred { index: 5 };
    assert!(tcx.mk_pred(PredKind::UnaryOp(liquid_rust::ty::UnOp::Not, stray)).is_none());
    assert!(tcx.mk_ty(TyKind::Refined(BaseTy::Int, Refine::Pred(stray))).is_none());
    assert!(tcx.mk_ty(TyKind::Tuple(Tuple(vec![(Field(0), Ty { index: 9 })]))).is_none());
    assert_eq!(tcx.len(), 0);
}

fn field_gt(tcx: &mut TyCtxt, field: usize) -> Ty {
    let nu = tcx.mk_pred(PredKind::Path(Path::new(Var::Nu, vec![]))).unwrap();
    let other = tcx.mk_pred(PredKind::Path(Path::new(Var::Field(Field(field)), vec![]))).unwrap();
    let gt = tcx.mk_pred(PredKind::BinaryOp(BinOp::Gt, nu, other)).unwrap();
    tcx.mk_ty(TyKind::Refined(BaseTy::Int, Refine::Pred(gt))).unwrap()
}

#[test]
fn tuple_fields_may_name_earlier_fields_only() {
    let mut tcx = TyCtxt::new();
    let tt = tcx.mk_pred(PredKind::Const(Constant::Bool(true))).unwrap();
    let int = tcx.mk_ty(TyKind::Refined(BaseTy::Int, Refine::Pred(tt))).unwrap();
    let above0 = field_gt(&mut tcx, 0);
    let above1 = field_gt(&mut tcx, 1);
    assert!(tcx.mk_ty(TyKind::Tuple(Tuple(vec![(Field(0), int), (Field(1), above0)]))).is_some());
    assert!(tcx.mk_ty(TyKind::Tuple(Tuple(vec![(Field(0), int), (Field(1), above1)]))).is_none());
    assert!(tcx.mk_ty(TyKind::Tuple(Tuple(vec![(Field(0), above1), (Field(1), int)]))).is_none());
    assert!(tcx.mk_ty(TyKind::Tuple(Tuple(vec![(Field(0), above0)]))).is_none());
}

#[test]
fn ghost_variables_are_never_reused() {
    let mut tcx = TyCtxt::new();
    let a = tcx.fresh_ghost().unwrap();
    let b = tcx.fresh_ghost().unwrap();
    let c = tcx.fresh_ghost().unwrap();
    assert_eq!((a.0, b.0, c.0), (0, 1, 2));
}
