use liquid_rust::check::bblock::Emitter;
use liquid_rust::check::env::{BBlockEnv, BBlockTy, Env, Fact, GlobEnv, TyError};
use liquid_rust::fixpoint::constraint::{Constraint, KVid};
use liquid_rust::fixpoint::gather::KVarGatherCtx;
use liquid_rust::mir::{
    BBlock, BBlockId, Body, Constant, FnId, Local, Operand, Place, Rvalue, Statement, Terminator,
};
use liquid_rust::ty::context::TyCtxt;
use liquid_rust::ty::{
    BaseTy, BinOp, BorrowKind, FnDecl, GhostVar, Kvar, Path, Pred, PredKind, Refine, Region, Ty,
    TyKind, Var,
};

fn var(tcx: &mut TyCtxt, v: Var) -> Pred {
    tcx.mk_pred(PredKind::Path(Path::new(v, vec![]))).unwrap()
}

/// `{ int | v op n }`
fn int_where(tcx: &mut TyCtxt, op: BinOp, n: u128) -> Ty {
    let nu = var(tcx, Var::Nu);
    let k = tcx.mk_pred(PredKind::Const(Constant::Int(n))).unwrap();
    let p = tcx.mk_pred(PredKind::BinaryOp(op, nu, k)).unwrap();
    tcx.mk_ty(TyKind::Refined(BaseTy::Int, Refine::Pred(p))).unwrap()
}

fn boolean(tcx: &mut TyCtxt) -> Ty {
    let tt = tcx.mk_pred(PredKind::Const(Constant::Bool(true))).unwrap();
    tcx.mk_ty(TyKind::Refined(BaseTy::Bool, Refine::Pred(tt))).unwrap()
}

fn fact(var: GhostVar, ty: Ty) -> Fact {
    Fact { var, ty, aliases: vec![] }
}

fn texts(emitter: &Emitter) -> Vec<String> {
    emitter
        .constraints
        .iter()
        .map(|c: &Constraint| {
            let mut w = String::new();
            c.emit(&mut w, 0);
            w
        })
        .collect()
}

fn no_blocks() -> BBlockEnv {
    BBlockEnv { blocks: vec![] }
}

fn no_fns() -> GlobEnv {
    GlobEnv { fns: vec![] }
}

#[test]
fn straight_line_function() {
    // fn f(y: {v | v >= 0}) -> {v | v >= 1} { x := y + 1; return x }
    let mut tcx = TyCtxt::new();
    let y = tcx.fresh_ghost().unwrap();
    let z = tcx.fresh_ghost().unwrap();
    let nat = int_where(&mut tcx, BinOp::Gte, 0);
    let pos = int_where(&mut tcx, BinOp::Gte, 1);
    let decl = FnDecl {
        requires: vec![(y, nat)],
        inputs: vec![y],
        ensures: vec![(z, pos)],
        outputs: vec![],
        output: z,
    };
    let entry = BBlockTy { input: Env { heap: vec![fact(y, nat)], locals: vec![(Local(1), y)] } };
    let block = BBlock {
        statements: vec![Statement::Assign(
            Local(0),
            Rvalue::BinaryOp(
                BinOp::Add,
                Operand::Local(Local(1)),
                Operand::Literal(Constant::Int(1)),
            ),
        )],
        terminator: Terminator::Return,
    };
    let mut emitter = Emitter::new();
    block.check(&mut tcx, &entry, &mut emitter, &no_fns(), &no_blocks(), &decl).unwrap();
    assert_eq!(
        texts(&emitter),
        vec!["(forall ((v0 int) (v0 >= 0)) (forall ((v1 int) (v1 = v0 + 1)) ((v1 >= 1))))"]
    );
    // The entry type of the block is untouched: the block worked on a copy.
    assert_eq!(entry.input.heap.len(), 1);
    assert_eq!(entry.input.locals.len(), 1);
}

#[test]
fn assignment_makes_a_new_ghost_variable() {
    let mut tcx = TyCtxt::new();
    let y = tcx.fresh_ghost().unwrap();
    let nat = int_where(&mut tcx, BinOp::Gte, 0);
    let mut env = Env { heap: vec![fact(y, nat)], locals: vec![(Local(1), y)] };
    Statement::Assign(Local(1), Rvalue::Use(Operand::Local(Local(1))))
        .synth(&mut tcx, &mut env)
        .unwrap();
    assert_eq!(env.heap.len(), 2);
    assert_eq!(env.heap[0].var, y);
    assert_eq!(env.heap[0].ty, nat);
    assert_eq!(env.heap[1].var, GhostVar(1));
    assert_eq!(env.ghost_of(Local(1)), Some(GhostVar(1)));
    assert_eq!(tcx.ty_to_string(env.heap[1].ty), "{ int | (v == g0) }");
    Statement::Noop.synth(&mut tcx, &mut env).unwrap();
    assert_eq!(env.heap.len(), 2);
    Statement::Assign(Local(2), Rvalue::Use(Operand::Literal(Constant::Bool(false))))
        .synth(&mut tcx, &mut env)
        .unwrap();
    assert_eq!(tcx.ty_to_string(env.heap[2].ty), "{ bool | (v == false) }");
    Statement::Assign(
        Local(3),
        Rvalue::BinaryOp(BinOp::Lt, Operand::Local(Local(1)), Operand::Literal(Constant::Int(9))),
    )
    .synth(&mut tcx, &mut env)
    .unwrap();
    assert_eq!(tcx.ty_to_string(env.heap[3].ty), "{ bool | (v == (g1 < 9)) }");
    Statement::Assign(Local(4), Rvalue::UnaryOp(liquid_rust::ty::UnOp::Neg, Operand::Local(Local(1))))
        .synth(&mut tcx, &mut env)
        .unwrap();
    assert_eq!(tcx.ty_to_string(env.heap[4].ty), "{ int | (v == -g1) }");
    assert_eq!(
        Statement::Assign(Local(5), Rvalue::Use(Operand::Local(Local(7)))).synth(&mut tcx, &mut env),
        Err(TyError::UnboundLocal(Local(7)))
    );
}

#[test]
fn unknown_refinement_of_a_block() {
    let mut tcx = TyCtxt::new();
    let x = tcx.fresh_ghost().unwrap();
    let expected = tcx.fresh_ghost().unwrap();
    let three = int_where(&mut tcx, BinOp::Eq(BaseTy::Int), 3);
    let k = Kvar { id: KVid::from_usize(3), vars: vec![Var::Nu] };
    let unknown = tcx.mk_ty(TyKind::Refined(BaseTy::Int, Refine::Infer(k))).unwrap();
    let target = BBlockId(1);
    let bb_env = BBlockEnv {
        blocks: vec![(
            target,
            BBlockTy {
                input: Env { heap: vec![fact(expected, unknown)], locals: vec![(Local(1), expected)] },
            },
        )],
    };
    let env = Env { heap: vec![fact(x, three)], locals: vec![(Local(1), x)] };
    let mut emitter = Emitter::new();
    target.check(&tcx, &env, &mut emitter, &bb_env).unwrap();
    assert_eq!(texts(&emitter), vec!["(forall ((v0 int) (v0 = 3)) (($k3 v0)))"]);
    let all = emitter.finish();
    let kvars = KVarGatherCtx::gather_kvars(&all).unwrap();
    assert_eq!(kvars.len(), 1);
    let mut w = String::new();
    kvars[0].emit(&mut w);
    assert_eq!(w, "(declare $k3 ((int)))");
}

#[test]
fn call_instantiates_the_callee() {
    let mut tcx = TyCtxt::new();
    let x = tcx.fresh_ghost().unwrap();
    let g_in = tcx.fresh_ghost().unwrap();
    let g_out = tcx.fresh_ghost().unwrap();
    let after = tcx.fresh_ghost().unwrap();
    let three = int_where(&mut tcx, BinOp::Eq(BaseTy::Int), 3);
    let pos = int_where(&mut tcx, BinOp::Gt, 0);
    let nat = int_where(&mut tcx, BinOp::Gte, 0);
    let nu = var(&mut tcx, Var::Nu);
    let input = var(&mut tcx, Var::GhostVar(g_in));
    let above = tcx.mk_pred(PredKind::BinaryOp(BinOp::Gt, nu, input)).unwrap();
    let above_input = tcx.mk_ty(TyKind::Refined(BaseTy::Int, Refine::Pred(above))).unwrap();
    let callee = FnId(7);
    let glob = GlobEnv {
        fns: vec![(
            callee,
            FnDecl {
                requires: vec![(g_in, pos)],
                inputs: vec![g_in],
                ensures: vec![(g_out, above_input)],
                outputs: vec![],
                output: g_out,
            },
        )],
    };
    let next = BBlockId(1);
    let bb_env = BBlockEnv {
        blocks: vec![(
            next,
            BBlockTy { input: Env { heap: vec![fact(after, nat)], locals: vec![(Local(2), after)] } },
        )],
    };
    let caller = FnDecl { requires: vec![], inputs: vec![], ensures: vec![], outputs: vec![], output: after };
    let mut env = Env { heap: vec![fact(x, three)], locals: vec![(Local(1), x)] };
    let mut emitter = Emitter::new();
    let call = Terminator::Call { func: callee, args: vec![Local(1)], dest: Local(2), target: next };
    call.check(&mut tcx, &mut env, &mut emitter, &glob, &bb_env, &caller).unwrap();
    assert_eq!(
        texts(&emitter),
        vec![
            "(forall ((v0 int) (v0 = 3)) ((v0 > 0)))",
            "(forall ((v0 int) (v0 = 3)) (forall ((v1 int) (v1 > v0)) ((v1 >= 0))))",
        ]
    );
    // What the callee ensures is in the heap under a ghost variable that
    // was not there before, and the destination names it.
    assert_eq!(env.heap.len(), 2);
    assert_eq!(env.heap[1].var, GhostVar(4));
    assert_eq!(env.heap[1].ty, above_input);
    assert_eq!(env.heap[1].aliases, vec![(g_in, x)]);
    assert_eq!(env.ghost_of(Local(2)), Some(GhostVar(4)));
    assert_eq!(env.ghost_of(Local(1)), Some(x));
}

#[test]
fn call_errors() {
    let mut tcx = TyCtxt::new();
    let x = tcx.fresh_ghost().unwrap();
    let g_in = tcx.fresh_ghost().unwrap();
    let three = int_where(&mut tcx, BinOp::Eq(BaseTy::Int), 3);
    let pos = int_where(&mut tcx, BinOp::Gt, 0);
    let decl = || FnDecl {
        requires: vec![(g_in, pos)],
        inputs: vec![g_in],
        ensures: vec![],
        outputs: vec![],
        output: g_in,
    };
    let glob = GlobEnv { fns: vec![(FnId(1), decl())] };
    let caller = decl();
    let check = |tcx: &mut TyCtxt, term: Terminator| {
        let mut env = Env { heap: vec![fact(x, three)], locals: vec![(Local(1), x)] };
        let mut emitter = Emitter::new();
        term.check(tcx, &mut env, &mut emitter, &glob, &no_blocks(), &caller)
    };
    let call = |func: usize, args: Vec<Local>| Terminator::Call {
        func: FnId(func),
        args,
        dest: Local(2),
        target: BBlockId(0),
    };
    assert_eq!(check(&mut tcx, call(9, vec![Local(1)])), Err(TyError::MissingFn(FnId(9))));
    assert_eq!(check(&mut tcx, call(1, vec![])), Err(TyError::ArityMismatch(FnId(1))));
    assert_eq!(check(&mut tcx, call(1, vec![Local(5)])), Err(TyError::UnboundLocal(Local(5))));
    // The declaration ensures nothing for its output.
    assert_eq!(
        check(&mut tcx, call(1, vec![Local(1)])),
        Err(TyError::UnboundVar(Var::GhostVar(g_in)))
    );
    assert_eq!(check(&mut tcx, Terminator::Goto(BBlockId(3))), Err(TyError::MissingBlock(BBlockId(3))));
    assert_eq!(check(&mut tcx, Terminator::Return), Err(TyError::UnboundLocal(Local(0))));
}

#[test]
fn branch_guards_each_side() {
    let mut tcx = TyCtxt::new();
    let c = tcx.fresh_ghost().unwrap();
    let x = tcx.fresh_ghost().unwrap();
    let want = tcx.fresh_ghost().unwrap();
    let flag = boolean(&mut tcx);
    let five = int_where(&mut tcx, BinOp::Eq(BaseTy::Int), 5);
    let nat = int_where(&mut tcx, BinOp::Gte, 0);
    let pos = int_where(&mut tcx, BinOp::Gt, 0);
    let block = |ty: Ty| BBlockTy {
        input: Env { heap: vec![fact(want, ty)], locals: vec![(Local(2), want)] },
    };
    let bb_env = BBlockEnv { blocks: vec![(BBlockId(1), block(nat)), (BBlockId(2), block(pos))] };
    let decl = FnDecl { requires: vec![], inputs: vec![], ensures: vec![], outputs: vec![], output: want };
    let mut env = Env {
        heap: vec![fact(c, flag), fact(x, five)],
        locals: vec![(Local(1), c), (Local(2), x)],
    };
    let mut emitter = Emitter::new();
    Terminator::Switch(Local(1), BBlockId(1), BBlockId(2))
        .check(&mut tcx, &mut env, &mut emitter, &no_fns(), &bb_env, &decl)
        .unwrap();
    assert_eq!(
        texts(&emitter),
        vec![
            "(forall ((v0 bool) (true)) (forall ((v1 int) (v1 = 5)) (forall ((_ int) (v0)) ((v1 >= 0)))))",
            "(forall ((v0 bool) (true)) (forall ((v1 int) (v1 = 5)) (forall ((_ int) (~v0)) ((v1 > 0)))))",
        ]
    );
    assert_eq!(env.heap.len(), 2);
}

#[test]
fn emitter_joins_what_was_emitted() {
    let mut emitter = Emitter::new();
    emitter.emit(Constraint::truth());
    emitter.emit(Constraint::truth());
    let mut w = String::new();
    emitter.finish().emit(&mut w, 0);
    assert_eq!(w, "(and ((true)) ((true)))");
    let mut w = String::new();
    Emitter::new().finish().emit(&mut w, 0);
    assert_eq!(w, "((true))");
}

#[test]
fn function_entry_binds_the_parameters() {
    let mut tcx = TyCtxt::new();
    let a = tcx.fresh_ghost().unwrap();
    let b = tcx.fresh_ghost().unwrap();
    let out = tcx.fresh_ghost().unwrap();
    let nat = int_where(&mut tcx, BinOp::Gte, 0);
    let pos = int_where(&mut tcx, BinOp::Gt, 0);
    let decl = FnDecl {
        requires: vec![(a, nat), (b, pos)],
        inputs: vec![b, a],
        ensures: vec![(out, nat)],
        outputs: vec![],
        output: out,
    };
    let env = decl.entry(&tcx).unwrap();
    assert_eq!(env.locals, vec![(Local(1), b), (Local(2), a)]);
    assert_eq!(env.heap.len(), 2);
    assert_eq!((env.heap[0].var, env.heap[0].ty), (a, nat));
    assert_eq!((env.heap[1].var, env.heap[1].ty), (b, pos));
    assert!(env.heap[0].aliases.is_empty());
    assert_eq!(env.ghost_of(Local(0)), None);
}

#[test]
fn body_checks_every_block_against_its_own_type() {
    // bb0: x := 7; goto bb2        bb1: x := 0; goto bb2        bb2: return x
    // with bb2 expecting `{v | v >= 0}` and the function ensuring the same.
    let mut tcx = TyCtxt::new();
    let want = tcx.fresh_ghost().unwrap();
    let out = tcx.fresh_ghost().unwrap();
    let nat = int_where(&mut tcx, BinOp::Gte, 0);
    let decl = FnDecl {
        requires: vec![],
        inputs: vec![],
        ensures: vec![(out, nat)],
        outputs: vec![],
        output: out,
    };
    let assign = |n: u128| BBlock {
        statements: vec![Statement::Assign(Local(0), Rvalue::Use(Operand::Literal(Constant::Int(n))))],
        terminator: Terminator::Goto(BBlockId(2)),
    };
    let body = Body {
        blocks: vec![
            (BBlockId(0), assign(7)),
            (BBlockId(1), assign(0)),
            (BBlockId(2), BBlock { statements: vec![], terminator: Terminator::Return }),
        ],
    };
    let empty = || BBlockTy { input: Env { heap: vec![], locals: vec![] } };
    let bb_env = BBlockEnv {
        blocks: vec![
            (BBlockId(0), empty()),
            (BBlockId(1), empty()),
            (
                BBlockId(2),
                BBlockTy { input: Env { heap: vec![fact(want, nat)], locals: vec![(Local(0), want)] } },
            ),
        ],
    };
    let mut emitter = Emitter::new();
    body.check(&mut tcx, &mut emitter, &no_fns(), &bb_env, &decl).unwrap();
    assert_eq!(
        texts(&emitter),
        vec![
            // The function is entered with nothing, as the first block expects.
            "((true))",
            "(forall ((v0 int) (v0 = 7)) ((v0 >= 0)))",
            "(forall ((v0 int) (v0 = 0)) ((v0 >= 0)))",
            "(forall ((v0 int) (v0 >= 0)) ((v0 >= 0)))",
        ]
    );
    // Each assignment used one ghost variable.
    assert_eq!(tcx.fresh_ghost(), Some(GhostVar(4)));
}

#[test]
fn body_is_entered_with_what_the_declaration_requires() {
    // fn f(x: {v | v > 5}) with an entry block that expects `{v | v >= 0}`.
    let mut tcx = TyCtxt::new();
    let x = tcx.fresh_ghost().unwrap();
    let want = tcx.fresh_ghost().unwrap();
    let out = tcx.fresh_ghost().unwrap();
    let big = int_where(&mut tcx, BinOp::Gt, 5);
    let nat = int_where(&mut tcx, BinOp::Gte, 0);
    let decl = FnDecl {
        requires: vec![(x, big)],
        inputs: vec![x],
        ensures: vec![(out, nat)],
        outputs: vec![],
        output: out,
    };
    let body = Body {
        blocks: vec![(
            BBlockId(0),
            BBlock {
                statements: vec![Statement::Assign(Local(0), Rvalue::Use(Operand::Local(Local(1))))],
                terminator: Terminator::Return,
            },
        )],
    };
    let bb_env = BBlockEnv {
        blocks: vec![(
            BBlockId(0),
            BBlockTy { input: Env { heap: vec![fact(want, nat)], locals: vec![(Local(1), want)] } },
        )],
    };
    let mut emitter = Emitter::new();
    emitter.emit(Constraint::truth());
    body.check(&mut tcx, &mut emitter, &no_fns(), &bb_env, &decl).unwrap();
    assert_eq!(
        texts(&emitter),
        vec![
            "((true))",
            "(forall ((v0 int) (v0 > 5)) ((v0 >= 0)))",
            "(forall ((v0 int) (v0 >= 0)) (forall ((v1 int) (v1 = v0)) ((v1 >= 0))))",
        ]
    );
}

#[test]
fn body_emits_nothing_where_a_later_block_fails() {
    let mut tcx = TyCtxt::new();
    let out = tcx.fresh_ghost().unwrap();
    let nat = int_where(&mut tcx, BinOp::Gte, 0);
    let decl = FnDecl { requires: vec![], inputs: vec![], ensures: vec![(out, nat)], outputs: vec![], output: out };
    let body = Body {
        blocks: vec![
            (
                BBlockId(0),
                BBlock {
                    statements: vec![Statement::Assign(
                        Local(0),
                        Rvalue::Use(Operand::Literal(Constant::Int(1))),
                    )],
                    terminator: Terminator::Return,
                },
            ),
            (BBlockId(1), BBlock { statements: vec![], terminator: Terminator::Goto(BBlockId(9)) }),
        ],
    };
    let empty = || BBlockTy { input: Env { heap: vec![], locals: vec![] } };
    let bb_env = BBlockEnv { blocks: vec![(BBlockId(0), empty()), (BBlockId(1), empty())] };
    let mut emitter = Emitter::new();
    emitter.emit(Constraint::truth());
    assert_eq!(
        body.check(&mut tcx, &mut emitter, &no_fns(), &bb_env, &decl),
        Err(TyError::MissingBlock(BBlockId(9)))
    );
    assert_eq!(texts(&emitter), vec!["((true))"]);
    // The blocks alone emit what they can before the error.
    let mut partial = Emitter::new();
    assert_eq!(
        body.check_blocks(&mut tcx, &mut partial, &no_fns(), &bb_env, &decl),
        Err(TyError::MissingBlock(BBlockId(9)))
    );
    assert_eq!(texts(&partial), vec!["(forall ((v0 int) (v0 = 1)) ((v0 >= 0)))"]);
    let none = Body { blocks: vec![] };
    assert_eq!(none.check(&mut tcx, &mut emitter, &no_fns(), &bb_env, &decl), Ok(()));
    assert_eq!(texts(&emitter), vec!["((true))"]);
}

#[test]
fn body_stops_at_the_first_error() {
    let mut tcx = TyCtxt::new();
    let out = tcx.fresh_ghost().unwrap();
    let nat = int_where(&mut tcx, BinOp::Gte, 0);
    let decl = FnDecl { requires: vec![], inputs: vec![], ensures: vec![(out, nat)], outputs: vec![], output: out };
    let body = Body {
        blocks: vec![(BBlockId(5), BBlock { statements: vec![], terminator: Terminator::Return })],
    };
    let mut emitter = Emitter::new();
    assert_eq!(
        body.check(&mut tcx, &mut emitter, &no_fns(), &no_blocks(), &decl),
        Err(TyError::MissingBlock(BBlockId(5)))
    );
    assert!(emitter.constraints.is_empty());
}

fn region_of(local: usize) -> Region {
    Region::Concrete(vec![Place { local: Local(local), projs: vec![] }])
}

#[test]
fn call_moves_a_reference_to_what_the_callee_ensures_of_it() {
    // fn bump(r: &mut {v | v >= 0}) ensures *r: {v | v > 0}
    let mut tcx = TyCtxt::new();
    let cell = tcx.fresh_ghost().unwrap();
    let borrow = tcx.fresh_ghost().unwrap();
    let g_cell = tcx.fresh_ghost().unwrap();
    let g_ref = tcx.fresh_ghost().unwrap();
    let g_after = tcx.fresh_ghost().unwrap();
    let g_ret = tcx.fresh_ghost().unwrap();
    let nat = int_where(&mut tcx, BinOp::Gte, 0);
    let pos = int_where(&mut tcx, BinOp::Gt, 0);
    let flag = boolean(&mut tcx);
    let caller_ref = tcx.mk_ty(TyKind::Ref(BorrowKind::Mut, region_of(5), cell)).unwrap();
    let callee_ref = tcx.mk_ty(TyKind::Ref(BorrowKind::Mut, region_of(5), g_cell)).unwrap();
    let glob = GlobEnv {
        fns: vec![(
            FnId(0),
            FnDecl {
                requires: vec![(g_cell, nat), (g_ref, callee_ref)],
                inputs: vec![g_ref],
                ensures: vec![(g_after, pos), (g_ret, flag)],
                outputs: vec![(0, g_after)],
                output: g_ret,
            },
        )],
    };
    let bb_env = BBlockEnv {
        blocks: vec![(BBlockId(1), BBlockTy { input: Env { heap: vec![], locals: vec![] } })],
    };
    let caller = FnDecl { requires: vec![], inputs: vec![], ensures: vec![], outputs: vec![], output: g_ret };
    let mut env = Env {
        heap: vec![fact(cell, nat), fact(borrow, caller_ref)],
        locals: vec![(Local(1), borrow)],
    };
    let mut emitter = Emitter::new();
    Terminator::Call { func: FnId(0), args: vec![Local(1)], dest: Local(2), target: BBlockId(1) }
        .check(&mut tcx, &mut env, &mut emitter, &glob, &bb_env, &caller)
        .unwrap();
    // Two facts for what is ensured, one for the reference that moved.
    assert_eq!(env.heap.len(), 5);
    let (after, ret, moved) = (GhostVar(6), GhostVar(7), GhostVar(8));
    assert_eq!((env.heap[2].var, env.heap[2].ty), (after, pos));
    assert_eq!((env.heap[3].var, env.heap[3].ty), (ret, flag));
    assert_eq!(env.heap[4].var, moved);
    assert_eq!(tcx.ty_to_string(env.heap[4].ty), "&{ _5 } mut g6");
    assert_eq!(env.ghost_of(Local(1)), Some(moved));
    assert_eq!(env.ghost_of(Local(2)), Some(ret));
    assert_eq!(tcx.fresh_ghost(), Some(GhostVar(9)));
    // The argument owed the type of the reference, and through it the
    // type of what it points at.
    assert_eq!(texts(&emitter)[0], "(forall ((v0 int) (v0 >= 0)) ((v0 >= 0)))");
}

#[test]
fn call_outputs_must_name_reference_arguments() {
    let mut tcx = TyCtxt::new();
    let x = tcx.fresh_ghost().unwrap();
    let g_in = tcx.fresh_ghost().unwrap();
    let g_out = tcx.fresh_ghost().unwrap();
    let nat = int_where(&mut tcx, BinOp::Gte, 0);
    let decl = |outputs: Vec<(usize, GhostVar)>| FnDecl {
        requires: vec![(g_in, nat)],
        inputs: vec![g_in],
        ensures: vec![(g_out, nat)],
        outputs,
        output: g_out,
    };
    let bb_env = BBlockEnv {
        blocks: vec![(BBlockId(1), BBlockTy { input: Env { heap: vec![], locals: vec![] } })],
    };
    let caller = decl(vec![]);
    let call = |tcx: &mut TyCtxt, outputs: Vec<(usize, GhostVar)>| {
        let glob = GlobEnv { fns: vec![(FnId(0), decl(outputs))] };
        let mut env = Env { heap: vec![fact(x, nat)], locals: vec![(Local(1), x)] };
        let mut emitter = Emitter::new();
        Terminator::Call { func: FnId(0), args: vec![Local(1)], dest: Local(2), target: BBlockId(1) }
            .check(tcx, &mut env, &mut emitter, &glob, &bb_env, &caller)
    };
    assert_eq!(call(&mut tcx, vec![]), Ok(()));
    assert_eq!(call(&mut tcx, vec![(3, g_out)]), Err(TyError::NoSuchInput(3)));
    // The argument is an integer, not a reference.
    assert_eq!(call(&mut tcx, vec![(0, g_out)]), Err(TyError::ShapeMismatch));
}

#[test]
fn return_owes_what_is_ensured_of_the_outputs() {
    // fn f(r: &mut int) -> bool ensures *r: {v | v > 0}
    let mut tcx = TyCtxt::new();
    let g_cell = tcx.fresh_ghost().unwrap();
    let g_ref = tcx.fresh_ghost().unwrap();
    let g_after = tcx.fresh_ghost().unwrap();
    let g_ret = tcx.fresh_ghost().unwrap();
    let seven = int_where(&mut tcx, BinOp::Eq(BaseTy::Int), 7);
    let pos = int_where(&mut tcx, BinOp::Gt, 0);
    let flag = boolean(&mut tcx);
    let reference = tcx.mk_ty(TyKind::Ref(BorrowKind::Mut, region_of(5), g_cell)).unwrap();
    let decl = FnDecl {
        requires: vec![(g_cell, seven), (g_ref, reference)],
        inputs: vec![g_ref],
        ensures: vec![(g_after, pos), (g_ret, flag)],
        outputs: vec![(0, g_after)],
        output: g_ret,
    };
    let mut env = decl.entry(&tcx).unwrap();
    Statement::Assign(Local(0), Rvalue::Use(Operand::Literal(Constant::Bool(true))))
        .synth(&mut tcx, &mut env)
        .unwrap();
    let mut emitter = Emitter::new();
    Terminator::Return
        .check(&mut tcx, &mut env, &mut emitter, &no_fns(), &no_blocks(), &decl)
        .unwrap();
    assert_eq!(
        texts(&emitter),
        vec![
            "(forall ((v0 int) (v0 = 7)) (forall ((v1 bool) (v1 = true)) (and ((true)) ((v0 > 0)))))"
        ]
    );
}

#[test]
fn call_of_a_function_that_returns_a_reference() {
    // fn make(n: {v | v >= 0}) -> &{v | v > 0}
    let mut tcx = TyCtxt::new();
    let x = tcx.fresh_ghost().unwrap();
    let g_in = tcx.fresh_ghost().unwrap();
    let g_cell = tcx.fresh_ghost().unwrap();
    let g_ret = tcx.fresh_ghost().unwrap();
    let want_cell = tcx.fresh_ghost().unwrap();
    let want_ref = tcx.fresh_ghost().unwrap();
    let nat = int_where(&mut tcx, BinOp::Gte, 0);
    let pos = int_where(&mut tcx, BinOp::Gt, 0);
    let ret_ty = tcx.mk_ty(TyKind::Ref(BorrowKind::Shared, region_of(5), g_cell)).unwrap();
    let want_ty = tcx.mk_ty(TyKind::Ref(BorrowKind::Shared, region_of(5), want_cell)).unwrap();
    let glob = GlobEnv {
        fns: vec![(
            FnId(0),
            FnDecl {
                requires: vec![(g_in, nat)],
                inputs: vec![g_in],
                // The reference is ensured before the cell that it points at.
                ensures: vec![(g_ret, ret_ty), (g_cell, pos)],
                outputs: vec![],
                output: g_ret,
            },
        )],
    };
    let bb_env = BBlockEnv {
        blocks: vec![(
            BBlockId(1),
            BBlockTy {
                input: Env {
                    heap: vec![fact(want_cell, nat), fact(want_ref, want_ty)],
                    locals: vec![(Local(2), want_ref)],
                },
            },
        )],
    };
    let caller = FnDecl { requires: vec![], inputs: vec![], ensures: vec![], outputs: vec![], output: g_ret };
    let mut env = Env { heap: vec![fact(x, nat)], locals: vec![(Local(1), x)] };
    let mut emitter = Emitter::new();
    Terminator::Call { func: FnId(0), args: vec![Local(1)], dest: Local(2), target: BBlockId(1) }
        .check(&mut tcx, &mut env, &mut emitter, &glob, &bb_env, &caller)
        .unwrap();
    let (new_ref, new_cell) = (GhostVar(6), GhostVar(7));
    assert_eq!(env.heap.len(), 3);
    assert_eq!(env.heap[1].var, new_ref);
    assert_eq!(tcx.ty_to_string(env.heap[1].ty), "&{ _5 } g7");
    assert_eq!((env.heap[2].var, env.heap[2].ty), (new_cell, pos));
    assert_eq!(env.heap[2].aliases, vec![(g_in, x), (g_ret, new_ref)]);
    assert_eq!(env.ghost_of(Local(2)), Some(new_ref));
    assert_eq!(
        texts(&emitter),
        vec![
            "(forall ((v0 int) (v0 >= 0)) ((v0 >= 0)))",
            "(forall ((v0 int) (v0 >= 0)) (forall ((v1 int) (v1 > 0)) ((v1 >= 0))))",
        ]
    );
}

#[test]
fn renaming_of_pointees() {
    let mut tcx = TyCtxt::new();
    let nat = int_where(&mut tcx, BinOp::Gte, 0);
    let a = tcx.mk_ty(TyKind::Ref(BorrowKind::Mut, region_of(1), GhostVar(10))).unwrap();
    let b = tcx.mk_ty(TyKind::Ref(BorrowKind::Mut, region_of(1), GhostVar(20))).unwrap();
    let raw = tcx.mk_ty(TyKind::Uninit(2)).unwrap();
    let inner = tcx
        .mk_ty(TyKind::Tuple(liquid_rust::ty::Tuple(vec![(liquid_rust::ty::Field(0), a), (liquid_rust::ty::Field(1), nat)])))
        .unwrap();
    let outer = tcx
        .mk_ty(TyKind::Tuple(liquid_rust::ty::Tuple(vec![(liquid_rust::ty::Field(2), inner), (liquid_rust::ty::Field(3), raw)])))
        .unwrap();
    let renaming = vec![(GhostVar(10), GhostVar(5)), (GhostVar(10), GhostVar(20)), (GhostVar(7), GhostVar(8))];
    // The last entry for a ghost variable is the one that counts.
    assert_eq!(tcx.rename_pointees(a, &renaming), b);
    assert_eq!(tcx.rename_pointees(b, &renaming), b);
    assert_eq!(tcx.rename_pointees(nat, &renaming), nat);
    assert_eq!(tcx.rename_pointees(raw, &renaming), raw);
    let renamed = tcx.rename_pointees(outer, &renaming);
    assert_eq!(tcx.ty_to_string(outer), "(@@2: (@@0: &{ _1 } mut g10, @@1: { int | (v >= 0) }), @@3: uninit(2))");
    assert_eq!(tcx.ty_to_string(renamed), "(@@2: (@@0: &{ _1 } mut g20, @@1: { int | (v >= 0) }), @@3: uninit(2))");
    // Nothing to rename: the same handle.
    assert_eq!(tcx.rename_pointees(outer, &vec![]), outer);
    let n = tcx.len();
    assert_eq!(tcx.rename_pointees(outer, &renaming), renamed);
    assert_eq!(tcx.len(), n);
}
