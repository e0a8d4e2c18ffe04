use liquid_rust::mir::{Constant, Local, Operand, Place};
use liquid_rust::ty::context::TyCtxt;
use liquid_rust::ty::{
    BaseTy, Field, GhostVar, Path, Pred, PredKind, Refine, Region, Tuple, Ty, TyKind, Var,
};

fn base(tcx: &mut TyCtxt, b: BaseTy) -> Ty {
    let tt = tcx.mk_pred(PredKind::Const(Constant::Bool(true))).unwrap();
    tcx.mk_ty(TyKind::Refined(b, Refine::Pred(tt))).unwrap()
}

#[test]
fn tuple_accessors() {
    let mut tcx = TyCtxt::new();
    let int = base(&mut tcx, BaseTy::Int);
    let boolean = base(&mut tcx, BaseTy::Bool);
    let empty = Tuple(vec![]);
    assert_eq!(empty.len(), 0);
    assert!(empty.is_empty());
    assert_eq!(empty.types(), vec![]);
    let pair = Tuple(vec![(Field(4), int), (Field(9), boolean)]);
    assert_eq!(pair.len(), 2);
    assert!(!pair.is_empty());
    assert_eq!(*pair.ty_at(0), int);
    assert_eq!(*pair.ty_at(1), boolean);
    assert_eq!(pair.types(), vec![int, boolean]);
    assert_eq!(pair.fields(), vec![Field(4), Field(9)]);
    assert_eq!(pair.iter(), vec![(Field(4), int), (Field(9), boolean)]);
}

#[test]
fn mapping_makes_a_new_tuple() {
    let mut tcx = TyCtxt::new();
    let int = base(&mut tcx, BaseTy::Int);
    let boolean = base(&mut tcx, BaseTy::Bool);
    let pair = Tuple(vec![(Field(4), int), (Field(9), boolean)]);
    let swapped = pair.map(|i: usize, f: &Field, ty: &Ty| {
        (Field(f.0 + i), if *ty == int { boolean } else { int })
    });
    assert_eq!(swapped.iter(), vec![(Field(4), boolean), (Field(10), int)]);
    assert_eq!(pair.iter(), vec![(Field(4), int), (Field(9), boolean)]);
    let second = pair.map_ty_at(1, |_: &Ty| int);
    assert_eq!(second.iter(), vec![(Field(4), int), (Field(9), int)]);
    let first = pair.map_ty_at(0, |ty: &Ty| *ty);
    assert_eq!(first.iter(), pair.iter());
    assert_eq!(pair.iter(), vec![(Field(4), int), (Field(9), boolean)]);
}

#[test]
fn conversions() {
    assert_eq!(Var::from(Field(3)), Var::Field(Field(3)));
    assert_eq!(Var::from(GhostVar(3)), Var::GhostVar(GhostVar(3)));
    let v: Var = GhostVar(8).into();
    assert_eq!(v, Var::GhostVar(GhostVar(8)));
    let p = Pred { index: 2 };
    assert_eq!(Refine::from(p), Refine::Pred(p));
    let path = Path::of(Var::Nu);
    assert_eq!(path.base, Var::Nu);
    assert!(path.projs.is_empty());
    let place = Place { local: Local(3), projs: vec![] };
    assert_eq!(Region::of(place.clone()), Region::Concrete(vec![place]));
}

#[test]
fn operands() {
    assert_eq!(Operand::Local(Local(2)).to_string(), "_2");
    assert_eq!(Operand::Literal(Constant::Int(17)).to_string(), "17");
    assert_eq!(Operand::Literal(Constant::Bool(false)).to_string(), "false");
    assert!(Constant::Bool(true).is_true());
    assert!(!Constant::Bool(false).is_true());
    assert!(!Constant::Int(1).is_true());
}
