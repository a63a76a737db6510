use hopper65::block::{Inst, Op, State};
use hopper65::Reg;

fn slot(s: &State, k: u64) -> Option<(Reg, u32)> {
    s.lookup(k)
}

#[test]
fn load_fresh_on_empty_gives_three_registers() {
    let s = State::new();
    let r = s.on(0, Op::Const(5));
    assert_eq!(r.len(), 3);
    let regs = [Reg::A, Reg::X, Reg::Y];
    for (n, reg) in r.iter().zip(regs.iter()) {
        assert_eq!(n.insts, vec![Inst::LoadConst { reg: *reg, value: 5 }]);
        assert_eq!(slot(n, 0), Some((*reg, 0)));
    }
    assert!(r[0] != r[1] && r[1] != r[2] && r[0] != r[2]);
}

#[test]
fn load_fresh_fan_out_keeps_lengths_equal() {
    let s = State::new().on(1, Op::Const(9)).remove(1);
    let r = s.on(2, Op::Const(3));
    assert_eq!(r.len(), 3);
    for n in &r {
        assert_eq!(n.insts.len(), 2);
        assert_eq!(n.insts[0], s.insts[0]);
        assert_eq!(slot(n, 1), Some((Reg::X, 0)));
    }
    assert_eq!(slot(&r[0], 2), Some((Reg::A, 1)));
    assert_eq!(slot(&r[1], 2), Some((Reg::X, 1)));
    assert_eq!(slot(&r[2], 2), Some((Reg::Y, 1)));
}

#[test]
fn reuse_of_unknown_value_has_no_successor() {
    let s = State::new();
    assert!(s.on(3, Op::Just(99)).is_empty());
}

#[test]
fn free_reuse_emits_nothing() {
    let s = State {
        regmap: vec![(1, (Reg::X, 1))],
        insts: vec![Inst::LoadConst { reg: Reg::X, value: 7 }, Inst::Transfer { from: Reg::X, to: Reg::X }],
    };
    assert!(!s.sets_at(1, Reg::X));
    let r = s.on(2, Op::Just(1));
    assert_eq!(r.len(), 1);
    assert_eq!(r[0].insts, s.insts);
    assert_eq!(slot(&r[0], 2), Some((Reg::X, 1)));
    assert_eq!(slot(&r[0], 1), Some((Reg::X, 1)));
}

#[test]
fn reuse_right_after_load_counts_the_load_itself() {
    let s = State::new().on(1, Op::Const(7)).remove(1);
    assert!(s.sets_at(0, Reg::X));
    let r = s.on(2, Op::Just(1));
    assert_eq!(r.len(), 3);
    assert_eq!(r[0].insts[1], Inst::Transfer { from: Reg::X, to: Reg::A });
    assert_eq!(
        r[1].insts,
        vec![
            Inst::StoreArg { reg: Reg::X, fwd: 2 },
            Inst::LoadConst { reg: Reg::X, value: 7 },
            Inst::LoadConst { reg: Reg::X, value: 0 },
        ]
    );
    assert_eq!(slot(&r[1], 1), Some((Reg::X, 1)));
    assert_eq!(slot(&r[1], 2), Some((Reg::X, 2)));
}

#[test]
fn clobbered_reuse_patches_or_transfers() {
    let x = 10;
    let y = 11;
    let z = 12;
    let s1 = State::new().on(x, Op::Const(1)).remove(0);
    let s2 = s1.on(y, Op::Const(2)).remove(0);
    assert!(s2.sets_at(0, Reg::A));
    let r = s2.on(z, Op::Just(x));
    assert!(!r.is_empty() && r.len() <= 3);
    for n in &r {
        assert!(n.insts.len() > s2.insts.len());
    }
    assert_eq!(
        r[0].insts,
        vec![
            Inst::StoreArg { reg: Reg::A, fwd: 3 },
            Inst::LoadConst { reg: Reg::A, value: 1 },
            Inst::LoadConst { reg: Reg::A, value: 2 },
            Inst::LoadConst { reg: Reg::A, value: 0 },
        ]
    );
    assert_eq!(slot(&r[0], x), Some((Reg::A, 1)));
    assert_eq!(slot(&r[0], y), Some((Reg::A, 2)));
    assert_eq!(slot(&r[0], z), Some((Reg::A, 3)));
    assert_eq!(r[1].insts[2], Inst::Transfer { from: Reg::A, to: Reg::X });
    assert_eq!(slot(&r[1], z), Some((Reg::X, 2)));
    assert_eq!(r[2].insts[2], Inst::Transfer { from: Reg::A, to: Reg::Y });
    assert_eq!(slot(&r[2], z), Some((Reg::Y, 2)));
}

#[test]
fn empty_range_is_never_overwritten() {
    let s = State::new().on(1, Op::Const(4)).remove(0);
    for reg in [Reg::A, Reg::X, Reg::Y] {
        assert!(!s.sets_at(1, reg));
    }
    assert!(s.sets_at(0, Reg::A));
    assert!(!s.sets_at(0, Reg::X));
}

#[test]
fn self_transfer_does_not_overwrite() {
    let s = State {
        regmap: vec![],
        insts: vec![Inst::Transfer { from: Reg::X, to: Reg::X }, Inst::Transfer { from: Reg::A, to: Reg::Y }],
    };
    assert!(!s.sets_at(0, Reg::X));
    assert!(s.sets_at(0, Reg::Y));
    assert!(!s.sets_at(0, Reg::A));
}

#[test]
fn patch_renumbers_indices_and_forward_stores() {
    let mut s = State {
        regmap: vec![(1, (Reg::A, 1)), (2, (Reg::X, 2)), (3, (Reg::Y, 3))],
        insts: vec![
            Inst::StoreArg { reg: Reg::A, fwd: 3 },
            Inst::LoadConst { reg: Reg::A, value: 1 },
            Inst::LoadConst { reg: Reg::X, value: 2 },
            Inst::LoadConst { reg: Reg::Y, value: 0 },
        ],
    };
    s.add_patch(2, Reg::X, Reg::Y);
    assert_eq!(s.insts.len(), 6);
    assert_eq!(
        s.insts,
        vec![
            Inst::StoreArg { reg: Reg::A, fwd: 4 },
            Inst::LoadConst { reg: Reg::A, value: 1 },
            Inst::StoreArg { reg: Reg::X, fwd: 3 },
            Inst::LoadConst { reg: Reg::X, value: 2 },
            Inst::LoadConst { reg: Reg::Y, value: 0 },
            Inst::LoadConst { reg: Reg::Y, value: 0 },
        ]
    );
    assert_eq!(s.regmap, vec![(1, (Reg::A, 1)), (2, (Reg::X, 3)), (3, (Reg::Y, 4))]);
}
