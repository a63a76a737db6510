use vstd::prelude::*;

use crate::Reg;
use crate::block::{overwritten, patched, step, Inst, Op, State};

verus! {

/// No register is overwritten within the empty range at the end of a
/// snapshot's instructions.
pub proof fn law_empty_range_not_overwritten(s: State, r: Reg)
    requires
        s.wf(),
    ensures
        !overwritten(s@.1, s@.1.len() as int, r),
{
}

/// A forward patch keeps residency indices below `orig`, moves those at or
/// above it up by one, keeps every key and register, and adds exactly two
/// instructions.
pub proof fn law_patch_indices(s: State, orig: u32, src: Reg, dst: Reg)
    requires
        s.wf(),
        orig <= s@.1.len(),
        s@.1.len() + 2 <= u32::MAX,
    ensures
        ({
            let p = patched(s@, orig, src, dst);
            &&& p.1.len() == s@.1.len() + 2
            &&& p.0.dom() == s@.0.dom()
            &&& forall|k: u64| #[trigger] s@.0.contains_key(k) ==> {
                &&& p.0[k].0 == s@.0[k].0
                &&& s@.0[k].1 < orig ==> p.0[k].1 == s@.0[k].1
                &&& s@.0[k].1 >= orig ==> p.0[k].1 == s@.0[k].1 + 1
            }
        }),
{
    let p = patched(s@, orig, src, dst);
    assert(p.0.dom() =~= s@.0.dom());
    assert forall|k: u64| #[trigger] s@.0.contains_key(k) implies s@.0[k].1 < s@.1.len() by {}
}

/// Reusing a value whose register still holds it yields one successor,
/// with the instructions unchanged and the new name aliasing the old slot.
pub proof fn law_free_reuse(s: State, name: u64, k: u64)
    requires
        s.wf(),
        s@.0.contains_key(k),
        !overwritten(s@.1, s@.0[k].1 as int, s@.0[k].0),
    ensures
        step(s@, name, Op::Just(k)).len() == 1,
        step(s@, name, Op::Just(k))[0].1 == s@.1,
        step(s@, name, Op::Just(k))[0].0 == s@.0.insert(name, s@.0[k]),
{
}

/// Reusing a value whose register was overwritten yields between one and
/// three distinct successors, one per destination register, each binding the
/// new name to its last instruction and none leaving the instructions as
/// they were.
pub proof fn law_clobbered_reuse(s: State, name: u64, k: u64)
    requires
        s.wf(),
        s@.1.len() + 2 <= u32::MAX,
        s@.0.contains_key(k),
        overwritten(s@.1, s@.0[k].1 as int, s@.0[k].0),
    ensures
        ({
            let r = step(s@, name, Op::Just(k));
            &&& 1 <= r.len() <= 3
            &&& forall|i: int, j: int| 0 <= i < j < r.len() ==> r[i] != r[j]
            &&& r[0].0[name].0 == Reg::A
            &&& r[1].0[name].0 == Reg::X
            &&& r[2].0[name].0 == Reg::Y
            &&& forall|i: int| #![auto] 0 <= i < r.len() ==> {
                &&& r[i].1.len() > s@.1.len()
                &&& r[i].0[name].1 == r[i].1.len() - 1
            }
        }),
{
    let r = step(s@, name, Op::Just(k));
    assert(r[0].0[name].0 == Reg::A);
    assert(r[1].0[name].0 == Reg::X);
    assert(r[2].0[name].0 == Reg::Y);
}

/// Loading a constant yields exactly three distinct successors, one per
/// register, each one instruction longer than the snapshot.
pub proof fn law_load_fan_out(s: State, name: u64, value: u8)
    requires
        s.wf(),
        s@.1.len() + 2 <= u32::MAX,
    ensures
        ({
            let r = step(s@, name, Op::Const(value));
            &&& r.len() == 3
            &&& forall|i: int, j: int| 0 <= i < j < 3 ==> r[i] != r[j]
            &&& r[0].0[name].0 == Reg::A
            &&& r[1].0[name].0 == Reg::X
            &&& r[2].0[name].0 == Reg::Y
            &&& forall|i: int| #![auto] 0 <= i < 3 ==> {
                &&& r[i].1 == s@.1.push(Inst::LoadConst { reg: r[i].0[name].0, value })
                &&& r[i].0[name].1 == s@.1.len()
                &&& r[i].0.remove(name) == s@.0.remove(name)
            }
        }),
{
    let r = step(s@, name, Op::Const(value));
    assert(r[0].0[name].0 == Reg::A);
    assert(r[1].0[name].0 == Reg::X);
    assert(r[2].0[name].0 == Reg::Y);
    assert(r[0].0.remove(name) =~= s@.0.remove(name));
    assert(r[1].0.remove(name) =~= s@.0.remove(name));
    assert(r[2].0.remove(name) =~= s@.0.remove(name));
}

} // verus!
