use vstd::prelude::*;

use crate::Reg;

verus! {

/// One emitted instruction.
#[derive(Clone, Copy, PartialEq, Eq, PartialOrd, Ord, Debug, Structural)]
pub enum Inst {
    /// Store `reg` into the operand of the instruction `fwd` slots ahead.
    StoreArg { reg: Reg, fwd: u32 },
    /// Load an immediate byte into `reg`.
    LoadConst { reg: Reg, value: u8 },
    /// Copy `from` into `to`.
    Transfer { from: Reg, to: Reg },
}

/// A request: reuse the value named by a key, or load a fresh constant.
#[derive(Clone, Copy, PartialEq, Eq, PartialOrd, Ord, Debug, Structural)]
pub enum Op {
    Just(u64),
    Const(u8),
}

/// A residency entry: the register holding a value and the index of the
/// instruction that put it there.
pub type Slot = (Reg, u32);

/// A machine-state snapshot: where each named value lives, and the
/// instructions emitted so far. `regmap` holds each key at most once.
#[derive(Clone, PartialEq, Eq, PartialOrd, Ord, Debug)]
pub struct State {
    pub regmap: Vec<(u64, Slot)>,
    pub insts: Vec<Inst>,
}

/// Does `i` put a new value into `reg`? A transfer of a register onto
/// itself does not.
pub open spec fn sets(i: Inst, reg: Reg) -> bool {
    match i {
        Inst::LoadConst { reg: r, .. } => r == reg,
        Inst::Transfer { from, to } => to == reg && from != reg,
        Inst::StoreArg { .. } => false,
    }
}

/// Is `reg` written by some instruction in `insts[lim..]`?
pub open spec fn overwritten(insts: Seq<Inst>, lim: int, reg: Reg) -> bool {
    exists|j: int| lim <= j < insts.len() && sets(#[trigger] insts[j], reg)
}

/// Does `i` leave a value in `reg` (a load into it, or any transfer to it)?
pub open spec fn establishes(i: Inst, reg: Reg) -> bool {
    match i {
        Inst::LoadConst { reg: r, .. } => r == reg,
        Inst::Transfer { to, .. } => to == reg,
        Inst::StoreArg { .. } => false,
    }
}

/// A deferred store at `p` targets an instruction inside the sequence.
pub open spec fn forward_in_range(insts: Seq<Inst>, p: int) -> bool {
    match insts[p] {
        Inst::StoreArg { fwd, .. } => p + fwd < insts.len(),
        _ => true,
    }
}

pub open spec fn has_key(s: Seq<(u64, Slot)>, k: u64) -> bool {
    exists|i: int| 0 <= i < s.len() && (#[trigger] s[i]).0 == k
}

pub open spec fn keys_unique(s: Seq<(u64, Slot)>) -> bool {
    forall|i: int, j: int|
        0 <= i < s.len() && 0 <= j < s.len() && (#[trigger] s[i]).0 == (#[trigger] s[j]).0 ==> i == j
}

/// The residency map that an entry list stands for.
pub open spec fn regs_of(s: Seq<(u64, Slot)>) -> Map<u64, Slot> {
    Map::new(
        |k: u64| has_key(s, k),
        |k: u64| s[choose|i: int| 0 <= i < s.len() && (#[trigger] s[i]).0 == k].1,
    )
}

/// The abstract snapshot: residency map and instruction sequence.
pub type Snap = (Map<u64, Slot>, Seq<Inst>);

/// Every residency entry points at an instruction that establishes its
/// register.
pub open spec fn valid(v: Snap) -> bool {
    forall|k: u64|
        #[trigger] v.0.contains_key(k) ==> {
            &&& v.0[k].1 < v.1.len()
            &&& establishes(v.1[v.0[k].1 as int], v.0[k].0)
        }
}

pub open spec fn bump(i: Inst) -> Inst {
    match i {
        Inst::StoreArg { reg, fwd } => Inst::StoreArg { reg, fwd: (fwd + 1) as u32 },
        _ => i,
    }
}

pub open spec fn shift(e: Slot, orig: u32) -> Slot {
    if e.1 >= orig {
        (e.0, (e.1 + 1) as u32)
    } else {
        e
    }
}

/// The snapshot after a forward patch: a deferred store of `reg` inserted at
/// `orig`, a placeholder load into `target` appended, earlier deferred stores
/// and later residency indices renumbered.
pub open spec fn patched(v: Snap, orig: u32, reg: Reg, target: Reg) -> Snap {
    let n = v.1.len();
    (
        v.0.map_values(|e: Slot| shift(e, orig)),
        v.1.subrange(0, orig as int).map_values(|i: Inst| bump(i)) + seq![
            Inst::StoreArg { reg, fwd: (n + 1 - orig) as u32 },
        ] + v.1.subrange(orig as int, n as int) + seq![Inst::LoadConst { reg: target, value: 0 }],
    )
}

/// Bind `name` to the last instruction of `v`, held in `r`.
pub open spec fn bind_last(v: Snap, name: u64, r: Reg) -> Snap {
    (v.0.insert(name, (r, (v.1.len() - 1) as u32)), v.1)
}

/// Bring the value set at `oi` in `or` into `r`: by a transfer while `r`
/// still allows it, else by a forward patch.
pub open spec fn reuse_branch(v: Snap, name: u64, or: Reg, oi: u32, r: Reg) -> Snap {
    if overwritten(v.1, oi as int, r) {
        bind_last(patched(v, oi, or, r), name, r)
    } else {
        bind_last((v.0, v.1.push(Inst::Transfer { from: or, to: r })), name, r)
    }
}

pub open spec fn load_branch(v: Snap, name: u64, value: u8, r: Reg) -> Snap {
    bind_last((v.0, v.1.push(Inst::LoadConst { reg: r, value })), name, r)
}

/// All successors of `v` when `name` is bound by `op`.
pub open spec fn step(v: Snap, name: u64, op: Op) -> Seq<Snap> {
    match op {
        Op::Just(k) => if !v.0.contains_key(k) {
            seq![]
        } else if overwritten(v.1, v.0[k].1 as int, v.0[k].0) {
            seq![
                reuse_branch(v, name, v.0[k].0, v.0[k].1, Reg::A),
                reuse_branch(v, name, v.0[k].0, v.0[k].1, Reg::X),
                reuse_branch(v, name, v.0[k].0, v.0[k].1, Reg::Y),
            ]
        } else {
            seq![(v.0.insert(name, v.0[k]), v.1)]
        },
        Op::Const(a) => seq![
            load_branch(v, name, a, Reg::A),
            load_branch(v, name, a, Reg::X),
            load_branch(v, name, a, Reg::Y),
        ],
    }
}

impl View for State {
    type V = Snap;

    open spec fn view(&self) -> Snap {
        (regs_of(self.regmap@), self.insts@)
    }
}

/// Entry `i` of a unique-key list is what its map holds for that key.
pub proof fn lemma_regs_at(s: Seq<(u64, Slot)>, i: int)
    requires
        keys_unique(s),
        0 <= i < s.len(),
    ensures
        regs_of(s).contains_key(s[i].0),
        regs_of(s)[s[i].0] == s[i].1,
{
    assert(has_key(s, s[i].0));
    let j = choose|j: int| 0 <= j < s.len() && (#[trigger] s[j]).0 == s[i].0;
    assert(s[j].0 == s[i].0);
}

/// Renumbering every entry of a unique-key list renumbers its map.
pub proof fn lemma_regs_shift(s0: Seq<(u64, Slot)>, s1: Seq<(u64, Slot)>, orig: u32)
    requires
        keys_unique(s0),
        s1.len() == s0.len(),
        forall|j: int| 0 <= j < s0.len() ==> #[trigger] s1[j] == (s0[j].0, shift(s0[j].1, orig)),
    ensures
        keys_unique(s1),
        regs_of(s1) == regs_of(s0).map_values(|e: Slot| shift(e, orig)),
{
    assert(keys_unique(s1)) by {
        assert forall|i: int, j: int|
            0 <= i < s1.len() && 0 <= j < s1.len() && (#[trigger] s1[i]).0 == (#[trigger] s1[j]).0 implies i == j by {
            assert(s0[i].0 == s0[j].0);
        }
    }
    let m = regs_of(s0).map_values(|e: Slot| shift(e, orig));
    assert forall|q: u64| #![auto] regs_of(s1).contains_key(q) <==> m.contains_key(q) by {
        if has_key(s0, q) {
            let j = choose|j: int| 0 <= j < s0.len() && (#[trigger] s0[j]).0 == q;
            assert(s1[j].0 == q);
        }
        if has_key(s1, q) {
            let j = choose|j: int| 0 <= j < s1.len() && (#[trigger] s1[j]).0 == q;
            assert(s0[j].0 == q);
        }
    }
    assert forall|q: u64| #[trigger] regs_of(s1).contains_key(q) implies regs_of(s1)[q] == m[q] by {
        let j = choose|j: int| 0 <= j < s1.len() && (#[trigger] s1[j]).0 == q;
        lemma_regs_at(s1, j);
        lemma_regs_at(s0, j);
    }
    assert(regs_of(s1) =~= m);
}

/// Appending an instruction keeps every residency valid.
pub proof fn lemma_push_valid(v: Snap, i: Inst)
    requires
        valid(v),
    ensures
        valid((v.0, v.1.push(i))),
{
    assert forall|k: u64| #[trigger] v.0.contains_key(k) implies v.1.push(i)[v.0[k].1 as int] == v.1[v.0[k].1 as int] by {}
}

/// Binding a name to a last instruction that establishes its register
/// keeps every residency valid.
pub proof fn lemma_bind_last_valid(v: Snap, name: u64, r: Reg)
    requires
        valid(v),
        v.1.len() > 0,
        v.1.len() - 1 <= u32::MAX,
        establishes(v.1.last(), r),
    ensures
        valid(bind_last(v, name, r)),
{
}

impl State {
    /// Keys unique, indices in range, residency valid, deferred stores in range.
    pub open spec fn wf(&self) -> bool {
        &&& self.insts@.len() <= u32::MAX
        &&& keys_unique(self.regmap@)
        &&& valid(self@)
        &&& forall|p: int| 0 <= p < self.insts@.len() ==> #[trigger] forward_in_range(self.insts@, p)
    }

    /// The empty snapshot.
    pub fn new() -> (r: State)
        ensures
            r.wf(),
            r@.0 == Map::<u64, Slot>::empty(),
            r@.1 == Seq::<Inst>::empty(),
    {
        let r = State { regmap: Vec::new(), insts: Vec::new() };
        assert(r@.0 =~= Map::<u64, Slot>::empty());
        r
    }

    /// Where `k` lives, if anywhere.
    pub fn lookup(&self, k: u64) -> (r: Option<Slot>)
        requires
            keys_unique(self.regmap@),
        ensures
            r == (if self@.0.contains_key(k) {
                Some(self@.0[k])
            } else {
                None::<Slot>
            }),
    {
        let mut i: usize = 0;
        while i < self.regmap.len()
            invariant
                i <= self.regmap@.len(),
                keys_unique(self.regmap@),
                forall|j: int| 0 <= j < i ==> (#[trigger] self.regmap@[j]).0 != k,
            decreases self.regmap@.len() - i,
        {
            if self.regmap[i].0 == k {
                proof {
                    lemma_regs_at(self.regmap@, i as int);
                }
                return Some(self.regmap[i].1);
            }
            i += 1;
        }
        None
    }

    /// Bind `k` to `e`, replacing any earlier binding.
    fn bind(&mut self, k: u64, e: Slot)
        requires
            keys_unique(old(self).regmap@),
        ensures
            keys_unique(final(self).regmap@),
            final(self).insts@ == old(self).insts@,
            final(self)@.0 == old(self)@.0.insert(k, e),
    {
        let ghost s0 = self.regmap@;
        let mut i: usize = 0;
        while i < self.regmap.len()
            invariant
                i <= self.regmap@.len(),
                self.regmap@ == s0,
                s0 == old(self).regmap@,
                self.insts@ == old(self).insts@,
                keys_unique(s0),
                forall|j: int| 0 <= j < i ==> (#[trigger] s0[j]).0 != k,
            decreases self.regmap@.len() - i,
        {
            if self.regmap[i].0 == k {
                self.regmap.set(i, (k, e));
                proof {
                    let s1 = self.regmap@;
                    assert(s1 == s0.update(i as int, (k, e)));
                    assert(keys_unique(s1));
                    assert forall|q: u64| #![auto] regs_of(s1).contains_key(q) <==> regs_of(s0).insert(k, e).contains_key(q) by {
                        if has_key(s0, q) {
                            let j = choose|j: int| 0 <= j < s0.len() && (#[trigger] s0[j]).0 == q;
                            assert(s1[j].0 == q);
                        }
                        if has_key(s1, q) {
                            let j = choose|j: int| 0 <= j < s1.len() && (#[trigger] s1[j]).0 == q;
                            assert(s0[j].0 == q);
                        }
                    }
                    assert forall|q: u64| #[trigger] regs_of(s1).contains_key(q) implies regs_of(s1)[q] == regs_of(s0).insert(k, e)[q] by {
                        let j = choose|j: int| 0 <= j < s1.len() && (#[trigger] s1[j]).0 == q;
                        lemma_regs_at(s1, j);
                        if q != k {
                            lemma_regs_at(s0, j);
                        }
                    }
                    assert(regs_of(s1) =~= regs_of(s0).insert(k, e));
                }
                return;
            }
            i += 1;
        }
        self.regmap.push((k, e));
        proof {
            let s1 = self.regmap@;
            assert(s1 == s0.push((k, e)));
            assert(keys_unique(s1));
            assert forall|q: u64| #![auto] regs_of(s1).contains_key(q) <==> regs_of(s0).insert(k, e).contains_key(q) by {
                if has_key(s0, q) {
                    let j = choose|j: int| 0 <= j < s0.len() && (#[trigger] s0[j]).0 == q;
                    assert(s1[j].0 == q);
                }
                if q == k {
                    assert(s1[s0.len() as int].0 == q);
                }
                if has_key(s1, q) && q != k {
                    let j = choose|j: int| 0 <= j < s1.len() && (#[trigger] s1[j]).0 == q;
                    assert(s0[j].0 == q);
                }
            }
            assert forall|q: u64| #[trigger] regs_of(s1).contains_key(q) implies regs_of(s1)[q] == regs_of(s0).insert(k, e)[q] by {
                let j = choose|j: int| 0 <= j < s1.len() && (#[trigger] s1[j]).0 == q;
                lemma_regs_at(s1, j);
                if q != k {
                    lemma_regs_at(s0, j);
                }
            }
            assert(regs_of(s1) =~= regs_of(s0).insert(k, e));
        }
    }

    /// An independent copy of this snapshot.
    pub fn duplicate(&self) -> (r: State)
        ensures
            r.regmap@ == self.regmap@,
            r.insts@ == self.insts@,
    {
        let mut regmap: Vec<(u64, Slot)> = Vec::new();
        let mut i: usize = 0;
        while i < self.regmap.len()
            invariant
                i <= self.regmap@.len(),
                regmap@ == self.regmap@.subrange(0, i as int),
            decreases self.regmap@.len() - i,
        {
            regmap.push(self.regmap[i]);
            i += 1;
        }
        let mut insts: Vec<Inst> = Vec::new();
        let mut i: usize = 0;
        while i < self.insts.len()
            invariant
                i <= self.insts@.len(),
                insts@ == self.insts@.subrange(0, i as int),
            decreases self.insts@.len() - i,
        {
            insts.push(self.insts[i]);
            i += 1;
        }
        assert(regmap@ =~= self.regmap@);
        assert(insts@ =~= self.insts@);
        State { regmap, insts }
    }

    /// Is `reg` overwritten by an instruction at index `lim` or later?
    pub fn sets_at(&self, lim: u32, reg: Reg) -> (r: bool)
        requires
            lim <= self.insts@.len() <= u32::MAX,
        ensures
            r == overwritten(self.insts@, lim as int, reg),
    {
        let mut idx: u32 = self.insts.len() as u32;
        while idx > lim
            invariant
                lim <= idx <= self.insts@.len(),
                forall|j: int| idx <= j < self.insts@.len() ==> !sets(#[trigger] self.insts@[j], reg),
            decreases idx,
        {
            idx -= 1;
            match self.insts[idx as usize] {
                Inst::LoadConst { reg: r, .. } => {
                    if r == reg {
                        return true;
                    }
                },
                Inst::Transfer { from, to } => {
                    if to == reg && from != reg {
                        return true;
                    }
                },
                Inst::StoreArg { .. } => {},
            }
        }
        false
    }

    /// Insert a deferred store of `reg` at `orig` and a placeholder load
    /// into `target` at the end, renumbering what the insertion shifts.
    pub fn add_patch(&mut self, orig: u32, reg: Reg, target: Reg)
        requires
            old(self).wf(),
            orig <= old(self).insts@.len(),
            old(self).insts@.len() + 2 <= u32::MAX,
        ensures
            final(self).wf(),
            final(self)@ == patched(old(self)@, orig, reg, target),
    {
        let ghost v0 = self@;
        let ghost s0 = self.regmap@;
        let ghost n: int = self.insts@.len() as int;
        proof {
            assert forall|j: int| 0 <= j < s0.len() implies (#[trigger] s0[j]).1.1 < n by {
                lemma_regs_at(s0, j);
                assert(v0.0.contains_key(s0[j].0));
            }
        }
        let l: u32 = self.insts.len() as u32 + 1 - orig;
        self.insts.insert(orig as usize, Inst::StoreArg { reg, fwd: l });
        self.insts.push(Inst::LoadConst { reg: target, value: 0 });
        let mut i: usize = 0;
        while i < orig as usize
            invariant
                i <= orig <= n,
                n + 2 <= u32::MAX,
                self.insts@.len() == n + 2,
                v0.1.len() == n,
                forall|p: int| 0 <= p < n ==> #[trigger] forward_in_range(v0.1, p),
                forall|j: int| 0 <= j < i ==> #[trigger] self.insts@[j] == bump(v0.1[j]),
                forall|j: int| i <= j < orig ==> #[trigger] self.insts@[j] == v0.1[j],
                self.insts@[orig as int] == (Inst::StoreArg { reg, fwd: l }),
                forall|j: int| orig < j <= n ==> #[trigger] self.insts@[j] == v0.1[j - 1],
                self.insts@[n + 1] == (Inst::LoadConst { reg: target, value: 0 }),
                self.regmap@ == s0,
            decreases orig - i,
        {
            match self.insts[i] {
                Inst::StoreArg { reg: r, fwd } => {
                    assert(forward_in_range(v0.1, i as int));
                    self.insts.set(i, Inst::StoreArg { reg: r, fwd: fwd + 1 });
                },
                _ => {},
            }
            i += 1;
        }
        let ghost insts1 = self.insts@;
        let mut i: usize = 0;
        while i < self.regmap.len()
            invariant
                i <= self.regmap@.len() == s0.len(),
                n + 2 <= u32::MAX,
                forall|j: int| 0 <= j < s0.len() ==> (#[trigger] s0[j]).1.1 < n,
                forall|j: int| 0 <= j < i ==> #[trigger] self.regmap@[j] == (s0[j].0, shift(s0[j].1, orig)),
                forall|j: int| i <= j < s0.len() ==> #[trigger] self.regmap@[j] == s0[j],
                self.insts@ == insts1,
            decreases s0.len() - i,
        {
            let (k, (r, idx)) = self.regmap[i];
            if idx >= orig {
                self.regmap.set(i, (k, (r, idx + 1)));
            }
            i += 1;
        }
        proof {
            lemma_regs_shift(s0, self.regmap@, orig);
            let pv = patched(v0, orig, reg, target);
            assert(self.insts@ =~= pv.1);
            assert(self@ == pv);
            assert forall|k: u64| #[trigger] pv.0.contains_key(k) implies {
                &&& pv.0[k].1 < pv.1.len()
                &&& establishes(pv.1[pv.0[k].1 as int], pv.0[k].0)
            } by {
                assert(v0.0.contains_key(k));
                let e = v0.0[k];
                if e.1 < orig {
                    assert(pv.1[e.1 as int] == bump(v0.1[e.1 as int]));
                } else {
                    assert(pv.1[e.1 + 1] == v0.1[e.1 as int]);
                }
            }
            assert forall|p: int| 0 <= p < self.insts@.len() implies #[trigger] forward_in_range(self.insts@, p) by {
                if p < orig {
                    assert(forward_in_range(v0.1, p));
                } else if orig < p <= n {
                    assert(forward_in_range(v0.1, p - 1));
                }
            }
        }
    }

    /// The successor that loads `value` into `r` and binds `this` to it.
    fn load_into(&self, this: u64, value: u8, r: Reg) -> (n: State)
        requires
            self.wf(),
            self.insts@.len() + 2 <= u32::MAX,
        ensures
            n.wf(),
            n@ == load_branch(self@, this, value, r),
    {
        let mut n = self.duplicate();
        let ghost v0 = n@;
        n.insts.push(Inst::LoadConst { reg: r, value });
        proof {
            lemma_push_valid(v0, Inst::LoadConst { reg: r, value });
        }
        let last: u32 = n.insts.len() as u32 - 1;
        n.bind(this, (r, last));
        proof {
            lemma_bind_last_valid(n@, this, r);
            assert forall|p: int| 0 <= p < n.insts@.len() implies #[trigger] forward_in_range(n.insts@, p) by {
                if p < v0.1.len() {
                    assert(forward_in_range(v0.1, p));
                }
            }
        }
        n
    }

    /// The successor that brings the value set at `oi` in `or` into `r`.
    fn reuse_into(&self, this: u64, or: Reg, oi: u32, r: Reg) -> (n: State)
        requires
            self.wf(),
            oi < self.insts@.len(),
            self.insts@.len() + 2 <= u32::MAX,
        ensures
            n.wf(),
            n@ == reuse_branch(self@, this, or, oi, r),
    {
        let mut n = self.duplicate();
        let ghost v0 = n@;
        if n.sets_at(oi, r) {
            n.add_patch(oi, or, r);
        } else {
            n.insts.push(Inst::Transfer { from: or, to: r });
            proof {
                lemma_push_valid(v0, Inst::Transfer { from: or, to: r });
                assert forall|p: int| 0 <= p < n.insts@.len() implies #[trigger] forward_in_range(n.insts@, p) by {
                    if p < v0.1.len() {
                        assert(forward_in_range(v0.1, p));
                    }
                }
            }
        }
        let last: u32 = n.insts.len() as u32 - 1;
        n.bind(this, (r, last));
        proof {
            lemma_bind_last_valid(n@, this, r);
        }
        n
    }

    /// Every successor snapshot of binding `this` by `op`, without repeats.
    pub fn on(&self, this: u64, op: Op) -> (r: Vec<State>)
        requires
            self.wf(),
            self.insts@.len() + 2 <= u32::MAX,
        ensures
            r@.len() == step(self@, this, op).len(),
            forall|i: int| 0 <= i < r@.len() ==> (#[trigger] r@[i]).wf() && r@[i]@ == step(self@, this, op)[i],
            forall|i: int, j: int| 0 <= i < j < r@.len() ==> (#[trigger] r@[i])@ != (#[trigger] r@[j])@,
    {
        let mut out: Vec<State> = Vec::new();
        match op {
            Op::Just(v) => {
                match self.lookup(v) {
                    None => {},
                    Some((or, oi)) => {
                        proof {
                            assert(self@.0.contains_key(v));
                        }
                        if self.sets_at(oi, or) {
                            out.push(self.reuse_into(this, or, oi, Reg::A));
                            out.push(self.reuse_into(this, or, oi, Reg::X));
                            out.push(self.reuse_into(this, or, oi, Reg::Y));
                            proof {
                                assert(out@[0]@.0[this].0 == Reg::A);
                                assert(out@[1]@.0[this].0 == Reg::X);
                                assert(out@[2]@.0[this].0 == Reg::Y);
                            }
                        } else {
                            let mut n = self.duplicate();
                            n.bind(this, (or, oi));
                            out.push(n);
                        }
                    },
                }
            },
            Op::Const(a) => {
                out.push(self.load_into(this, a, Reg::A));
                out.push(self.load_into(this, a, Reg::X));
                out.push(self.load_into(this, a, Reg::Y));
                proof {
                    assert(out@[0]@.0[this].0 == Reg::A);
                    assert(out@[1]@.0[this].0 == Reg::X);
                    assert(out@[2]@.0[this].0 == Reg::Y);
                }
            },
        }
        out
    }

    /// Make the value named `this` available in `A`: by a transfer while `A`
    /// allows it, else by a forward patch of `A` into the value's register.
    fn get_into_a(&mut self, this: u64)
        requires
            old(self).wf(),
            old(self).insts@.len() + 2 <= u32::MAX,
        ensures
            final(self).wf(),
            final(self)@ == (if old(self)@.0.contains_key(this) {
                let (or, oi) = old(self)@.0[this];
                if overwritten(old(self)@.1, oi as int, Reg::A) {
                    patched(old(self)@, oi, Reg::A, or)
                } else {
                    bind_last((old(self)@.0, old(self)@.1.push(Inst::Transfer { from: or, to: Reg::A })), this, Reg::A)
                }
            } else {
                old(self)@
            }),
    {
        if let Some((or, oi)) = self.lookup(this) {
            proof {
                assert(self@.0.contains_key(this));
            }
            if self.sets_at(oi, Reg::A) {
                self.add_patch(oi, Reg::A, or);
            } else {
                let ghost v0 = self@;
                self.insts.push(Inst::Transfer { from: or, to: Reg::A });
                proof {
                    lemma_push_valid(v0, Inst::Transfer { from: or, to: Reg::A });
                    assert forall|p: int| 0 <= p < self.insts@.len() implies #[trigger] forward_in_range(self.insts@, p) by {
                        if p < v0.1.len() {
                            assert(forward_in_range(v0.1, p));
                        }
                    }
                }
                let last: u32 = self.insts.len() as u32 - 1;
                self.bind(this, (Reg::A, last));
                proof {
                    lemma_bind_last_valid(self@, this, Reg::A);
                }
            }
        }
    }
}

} // verus!
