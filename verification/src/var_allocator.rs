//! Linear-scan binding of variables to general-purpose registers and
//! stack slots.
//!
//! The allocator keeps a pool of free registers, ordered so that
//! callee-saved registers are preferred and the argument registers are
//! handed out last; parameters are bound up front per the System V
//! convention (six register arguments, the rest at positive frame
//! offsets).  A variable is bound on its first lookup: dead registers are
//! reclaimed first, then a free register is taken, and only when none is
//! left does the variable get a fresh stack slot at the next negative
//! offset, where it stays for its whole life.
//!
//! The allocator's well-formedness (`wf`) carries the safety property:
//! bound variables never share a location, so in particular no two live
//! variables ever sit in the same register (`lemma_allocator_safety`).

use vstd::prelude::*;
use crate::lifetime::{LifetimeChecker, lt_has, lt_first};
use crate::names::str_eq;

verus! {

#[derive(Debug, Clone, Copy, PartialEq, Eq, Structural)]
pub enum Register {
    Rax,
    Rbx,
    Rbp,
    Rsp,
    Rcx,
    Rdx,
    Rsi,
    Rdi,
    R8,
    R9,
    R10,
    R11,
    R12,
    R13,
    R14,
    R15,
}

#[derive(Debug, Clone, Copy, PartialEq, Eq, Structural)]
pub enum VariableLocation {
    /// A frame slot, addressed relative to the frame base register.
    Stack(i64),
    Register(Register),
}

pub struct AllocatedVariable {
    location: VariableLocation,
    lifetime_end: u64,
    name: String,
}

/// Model of one binding.
pub struct AvM {
    pub location: VariableLocation,
    pub end: u64,
    pub name: Seq<char>,
}

spec fn av_of(v: AllocatedVariable) -> AvM {
    AvM { location: v.location, end: v.lifetime_end, name: v.name@ }
}

pub struct VariableAllocator {
    free_registers: Vec<Register>,
    variables: Vec<AllocatedVariable>,
    next_stack_variable_offset: i64,
}

/// Two bindings never collide: distinct registers, distinct stack slots.
pub open spec fn compatible_locations(l1: VariableLocation, l2: VariableLocation) -> bool {
    match (l1, l2) {
        (VariableLocation::Register(r1), VariableLocation::Register(r2)) => r1 != r2,
        (VariableLocation::Stack(o1), VariableLocation::Stack(o2)) => o1 != o2,
        _ => true,
    }
}

/// The register pool in its initial order; the argument registers sit at
/// the end so they are popped first for parameters, and the callee-saved
/// registers last of all.
pub open spec fn initial_registers() -> Seq<Register> {
    seq![
        Register::R15,
        Register::R14,
        Register::R13,
        Register::R12,
        Register::R11,
        Register::R10,
        Register::Rbx,
        Register::R9,
        Register::R8,
        Register::Rcx,
        Register::Rdx,
        Register::Rsi,
        Register::Rdi,
    ]
}

/// The System V integer argument registers, in parameter order.
pub open spec fn argument_register(i: int) -> Register {
    initial_registers()[12 - i]
}

/// The frame offset of the `i`-th parameter when it is passed on the
/// stack (`i >= 6` of `n` parameters).
pub open spec fn param_stack_offset(i: int, n: int) -> int {
    8 * (n - i)
}

impl VariableAllocator {
    pub closed spec fn frees(&self) -> Seq<Register> {
        self.free_registers@
    }

    pub closed spec fn vars(&self) -> Seq<AvM> {
        self.variables@.map_values(|v: AllocatedVariable| av_of(v))
    }

    pub closed spec fn next_off(&self) -> int {
        self.next_stack_variable_offset as int
    }

    /// The allocator's invariant: the free registers are pairwise
    /// distinct and disjoint from the bound ones, bound locations are
    /// pairwise compatible, and every bound stack slot lies above the
    /// next free one.
    pub open spec fn wf(&self) -> bool {
        &&& forall|i: int, j: int|
            0 <= i < j < self.frees().len() ==> self.frees()[i] != self.frees()[j]
        &&& forall|i: int, j: int|
            0 <= i < self.frees().len() && 0 <= j < self.vars().len()
                ==> (#[trigger] self.vars()[j]).location != VariableLocation::Register(
                #[trigger] self.frees()[i],
            )
        &&& forall|i: int, j: int|
            0 <= i < j < self.vars().len() ==> (((#[trigger] self.vars()[i]).location matches
            VariableLocation::Register(_)) && ((#[trigger] self.vars()[j]).location matches
            VariableLocation::Register(_)) ==> self.vars()[i].location != self.vars()[j].location)
        &&& self.next_off() > i64::MIN + 8 ==> {
            &&& forall|i: int, j: int|
                0 <= i < j < self.vars().len() ==> compatible_locations(
                    (#[trigger] self.vars()[i]).location,
                    (#[trigger] self.vars()[j]).location,
                )
            &&& forall|i: int|
                0 <= i < self.vars().len() ==> ((#[trigger] self.vars()[i]).location matches
                VariableLocation::Stack(o) ==> o > self.next_off())
        }
        &&& self.next_off() <= -56
    }

    /// Binds the parameters and fills the register pool.  The first six
    /// parameters take the argument registers in order; the rest are read
    /// from their positive frame offsets.
    pub fn new(parameters: &crate::parser::Parameters, lifetime_checker: &mut LifetimeChecker) -> (r:
        Self)
        requires
            8 * parameters@.len() <= i64::MAX,
            forall|i: int|
                0 <= i < parameters@.len() ==> lt_has(
                    old(lifetime_checker)@,
                    (#[trigger] parameters@[i])@,
                ),
        ensures
            final(lifetime_checker)@ == old(lifetime_checker)@,
            r.wf(),
            r.next_off() == -56,
            r.vars().len() == parameters@.len(),
            forall|i: int|
                0 <= i < parameters@.len() ==> {
                    let v = #[trigger] r.vars()[i];
                    &&& v.name == parameters@[i]@
                    &&& v.end == clamp_end(lt_first(old(lifetime_checker)@, parameters@[i]@).end)
                    &&& v.location == (if i < 6 {
                        VariableLocation::Register(argument_register(i))
                    } else {
                        VariableLocation::Stack(param_stack_offset(i, parameters@.len() as int) as i64)
                    })
                },
            r.frees() == (if parameters@.len() < 6 {
                initial_registers().take(13 - parameters@.len() as int)
            } else {
                initial_registers().take(7)
            }),
    {
        let mut free_registers: Vec<Register> = Vec::new();
        free_registers.push(Register::R15);
        free_registers.push(Register::R14);
        free_registers.push(Register::R13);
        free_registers.push(Register::R12);
        free_registers.push(Register::R11);
        free_registers.push(Register::R10);
        free_registers.push(Register::Rbx);
        free_registers.push(Register::R9);
        free_registers.push(Register::R8);
        free_registers.push(Register::Rcx);
        free_registers.push(Register::Rdx);
        free_registers.push(Register::Rsi);
        free_registers.push(Register::Rdi);
        proof {
            assert(free_registers@ =~= initial_registers());
        }
        let mut variables: Vec<AllocatedVariable> = Vec::new();
        let n = parameters.len();
        let mut i: usize = 0;
        while i < n
            invariant
                i <= n,
                n == parameters@.len(),
                8 * n <= i64::MAX,
                lifetime_checker@ == old(lifetime_checker)@,
                forall|k: int|
                    0 <= k < parameters@.len() ==> lt_has(
                        old(lifetime_checker)@,
                        (#[trigger] parameters@[k])@,
                    ),
                variables@.len() == i,
                free_registers@ == (if i < 6 {
                    initial_registers().take(13 - i as int)
                } else {
                    initial_registers().take(7)
                }),
                forall|k: int|
                    0 <= k < i ==> {
                        let v = av_of(#[trigger] variables@[k]);
                        &&& v.name == parameters@[k]@
                        &&& v.end == clamp_end(
                            lt_first(old(lifetime_checker)@, parameters@[k]@).end,
                        )
                        &&& v.location == (if k < 6 {
                            VariableLocation::Register(argument_register(k))
                        } else {
                            VariableLocation::Stack(param_stack_offset(k, n as int) as i64)
                        })
                    },
            decreases n - i,
        {
            let lifetime_end_signed = lifetime_checker.get_end_lifetime(parameters[i].as_str());
            let lifetime_end: u64 = if lifetime_end_signed >= 0 {
                lifetime_end_signed as u64
            } else {
                0
            };
            if i < 6 {
                let reg = match free_registers.pop() {
                    Some(rg) => rg,
                    None => {
                        proof {
                            assert(false);
                        }
                        Register::Rax
                    },
                };
                proof {
                    assert(initial_registers().take(13 - i as int).last() == argument_register(
                        i as int,
                    ));
                    assert(initial_registers().take(13 - i as int).drop_last()
                        =~= initial_registers().take(13 - (i + 1)));
                }
                variables.push(
                    AllocatedVariable {
                        location: VariableLocation::Register(reg),
                        lifetime_end,
                        name: parameters[i].clone(),
                    },
                );
            } else {
                let offset: i64 = 8 * ((n as i64) - (i as i64));
                variables.push(
                    AllocatedVariable {
                        location: VariableLocation::Stack(offset),
                        lifetime_end,
                        name: parameters[i].clone(),
                    },
                );
                proof {
                    if i == 6 {
                        assert(initial_registers().take(7) =~= initial_registers().take(7));
                    }
                }
            }
            i += 1;
        }
        let r = VariableAllocator {
            free_registers,
            variables,
            next_stack_variable_offset: -56,
        };
        proof {
            lemma_initial_registers_distinct();
            assert forall|a: int, b: int| 0 <= a < b < r.vars().len() implies compatible_locations(
                (#[trigger] r.vars()[a]).location,
                (#[trigger] r.vars()[b]).location,
            ) by {
                if b < 6 {
                    assert(argument_register(a) == initial_registers()[12 - a]);
                    assert(argument_register(b) == initial_registers()[12 - b]);
                } else if a >= 6 {
                    assert(param_stack_offset(a, n as int) != param_stack_offset(b, n as int));
                }
            }
            assert forall|a: int, b: int|
                0 <= a < r.frees().len() && 0 <= b < r.vars().len() implies (
            #[trigger] r.vars()[b]).location != VariableLocation::Register(
                #[trigger] r.frees()[a],
            ) by {
                if b < 6 {
                    assert(r.frees()[a] == initial_registers()[a]);
                    assert(argument_register(b) == initial_registers()[12 - b]);
                    assert(r.frees().len() <= 13 - b - 1 || r.frees().len() == 7);
                }
            }
        }
        r
    }

    /// Whether a register is currently handed out (not in the free pool).
    pub fn is_allocated(&mut self, reg: Register) -> (r: bool)
        ensures
            *final(self) == *old(self),
            r == !old(self).frees().contains(reg),
    {
        let n = self.free_registers.len();
        let mut i: usize = 0;
        while i < n
            invariant
                i <= n,
                n == self.frees().len(),
                forall|k: int| 0 <= k < i ==> self.frees()[k] != reg,
            decreases n - i,
        {
            if self.free_registers[i] == reg {
                return false;
            }
            i += 1;
        }
        proof {
            if self.frees().contains(reg) {
                let j = choose|j: int| 0 <= j < self.frees().len() && self.frees()[j] == reg;
            }
        }
        true
    }

    /// The index of the binding for `name`, if there is one.
    fn find_var(&self, name: &str) -> (r: Option<usize>)
        ensures
            match r {
                Some(j) => j < self.vars().len() && self.vars()[j as int].name == name@ && (
                forall|k: int| 0 <= k < j ==> (#[trigger] self.vars()[k]).name != name@),
                None => !has_var(self.vars(), name@),
            },
    {
        let n = self.variables.len();
        let mut i: usize = 0;
        while i < n
            invariant
                i <= n,
                n == self.variables@.len(),
                n == self.vars().len(),
                forall|k: int| 0 <= k < i ==> (#[trigger] self.vars()[k]).name != name@,
            decreases n - i,
        {
            if str_eq(self.variables[i].name.as_str(), name) {
                proof {
                    assert(self.vars()[i as int].name == name@);
                }
                return Some(i);
            }
            proof {
                assert(self.vars()[i as int].name == self.variables@[i as int].name@);
            }
            i += 1;
        }
        None
    }

    /// Reclaims the registers of bindings whose lifetime ended before
    /// `line`; stack bindings stay for good.
    fn check(&mut self, line: u64)
        requires
            old(self).wf(),
        ensures
            final(self).wf_after_check(old(self), line),
    {
        let n = self.variables.len();
        let mut kept: Vec<AllocatedVariable> = Vec::new();
        let mut i: usize = 0;
        while i < n
            invariant
                i <= n,
                n == self.variables@.len(),
                self.next_stack_variable_offset == old(self).next_stack_variable_offset,
                old(self).wf(),
                self.vars() == old(self).vars(),
                kept@.map_values(|v: AllocatedVariable| av_of(v)) == reclaim_kept(
                    old(self).vars().take(i as int),
                    line,
                ),
                self.frees() == old(self).frees() + reclaim_freed(
                    old(self).vars().take(i as int),
                    line,
                ),
            decreases n - i,
        {
            let ghost pre = old(self).vars().take(i as int);
            let keep_it = self.variables[i].lifetime_end >= line || (match self
                .variables[i].location {
                VariableLocation::Stack(_) => true,
                VariableLocation::Register(_) => false,
            });
            proof {
                assert(self.vars()[i as int] == av_of(self.variables@[i as int]));
            }
            if keep_it {
                let v = &self.variables[i];
                kept.push(
                    AllocatedVariable {
                        location: v.location,
                        lifetime_end: v.lifetime_end,
                        name: v.name.clone(),
                    },
                );
            } else {
                match self.variables[i].location {
                    VariableLocation::Register(rg) => {
                        self.free_registers.push(rg);
                    },
                    VariableLocation::Stack(_) => (),
                }
            }
            proof {
                assert(old(self).vars().take(i + 1) =~= pre.push(old(self).vars()[i as int]));
                assert(pre.push(old(self).vars()[i as int]).drop_last() =~= pre);
                assert(kept@.map_values(|v: AllocatedVariable| av_of(v)) =~= reclaim_kept(
                    old(self).vars().take(i + 1),
                    line,
                ));
                assert(self.frees() =~= old(self).frees() + reclaim_freed(
                    old(self).vars().take(i + 1),
                    line,
                ));
            }
            i += 1;
        }
        self.variables = kept;
        proof {
            assert(old(self).vars().take(n as int) =~= old(self).vars());
        }
    }

    /// What `check` leaves behind.
    pub open spec fn wf_after_check(&self, prev: &VariableAllocator, line: u64) -> bool {
        &&& self.vars() == reclaim_kept(prev.vars(), line)
        &&& self.frees() == prev.frees() + reclaim_freed(prev.vars(), line)
        &&& self.next_off() == prev.next_off()
    }

    /// Binds a fresh variable: a reclaimed or free register if one exists,
    /// a fresh stack slot otherwise.  The second component of the result
    /// says whether a new stack slot was taken, so the emitter can grow
    /// the frame.
    fn allocate(&mut self, name: &str, line: u64, lifetime_checker: &mut LifetimeChecker) -> (r: (
        VariableLocation,
        bool,
    ))
        requires
            old(self).wf(),
            lt_has(old(lifetime_checker)@, name@),
        ensures
            final(lifetime_checker)@ == old(lifetime_checker)@,
            final(self).wf(),
            spec_allocate(
                *old(self),
                name@,
                line,
                lt_first(old(lifetime_checker)@, name@).end,
                *final(self),
                r,
            ),
    {
        self.check(line);
        let lifetime_end_signed = lifetime_checker.get_end_lifetime(name);
        let lifetime_end: u64 = if lifetime_end_signed >= 0 {
            lifetime_end_signed as u64
        } else {
            0
        };
        proof {
            lemma_reclaim_wf(old(self), self, line);
        }
        let ghost mid = *self;
        if self.free_registers.len() > 0 {
            let reg = match self.free_registers.pop() {
                Some(rg) => rg,
                None => {
                    proof {
                        assert(false);
                    }
                    Register::Rax
                },
            };
            let location = VariableLocation::Register(reg);
            self.variables.push(
                AllocatedVariable { location, lifetime_end, name: String::from_str(name) },
            );
            proof {
                assert(self.vars() =~= mid.vars().push(
                    AvM { location, end: lifetime_end, name: name@ },
                ));
                assert(self.frees() =~= mid.frees().drop_last());
                assert(mid.frees()[mid.frees().len() - 1] == reg);
                assert forall|a: int, b: int|
                    0 <= a < b < self.vars().len() implies (((#[trigger] self.vars()[a]).location
                    matches VariableLocation::Register(_)) && ((
                #[trigger] self.vars()[b]).location matches VariableLocation::Register(_))
                    ==> self.vars()[a].location != self.vars()[b].location) by {
                    if b == self.vars().len() - 1 {
                        assert(mid.vars()[a].location != VariableLocation::Register(
                            mid.frees()[mid.frees().len() - 1],
                        ));
                    }
                }
                if self.next_off() > i64::MIN + 8 {
                    assert forall|a: int, b: int|
                        0 <= a < b < self.vars().len() implies compatible_locations(
                        (#[trigger] self.vars()[a]).location,
                        (#[trigger] self.vars()[b]).location,
                    ) by {
                        if b == self.vars().len() - 1 {
                            assert(mid.vars()[a].location != VariableLocation::Register(
                                mid.frees()[mid.frees().len() - 1],
                            ));
                        }
                    }
                }
            }
            (location, false)
        } else {
            let offset = self.next_stack_variable_offset;
            let location = VariableLocation::Stack(offset);
            if offset > i64::MIN + 8 {
                self.next_stack_variable_offset = offset - 8;
            }
            self.variables.push(
                AllocatedVariable { location, lifetime_end, name: String::from_str(name) },
            );
            proof {
                assert(self.vars() =~= mid.vars().push(
                    AvM { location, end: lifetime_end, name: name@ },
                ));
                assert forall|a: int, b: int|
                    0 <= a < b < self.vars().len() implies (((#[trigger] self.vars()[a]).location
                    matches VariableLocation::Register(_)) && ((
                #[trigger] self.vars()[b]).location matches VariableLocation::Register(_))
                    ==> self.vars()[a].location != self.vars()[b].location) by {}
                if self.next_off() > i64::MIN + 8 {
                    assert(mid.next_off() > i64::MIN + 8);
                    assert forall|a: int, b: int|
                        0 <= a < b < self.vars().len() implies compatible_locations(
                        (#[trigger] self.vars()[a]).location,
                        (#[trigger] self.vars()[b]).location,
                    ) by {
                        if b == self.vars().len() - 1 {
                            match mid.vars()[a].location {
                                VariableLocation::Stack(o) => {
                                    assert(o > mid.next_off());
                                },
                                VariableLocation::Register(_) => (),
                            }
                        }
                    }
                    assert forall|a: int|
                        0 <= a < self.vars().len() implies ((
                    #[trigger] self.vars()[a]).location matches VariableLocation::Stack(o)
                        ==> o > self.next_off()) by {
                        if a < self.vars().len() - 1 {
                            match mid.vars()[a].location {
                                VariableLocation::Stack(o) => {
                                    assert(o > mid.next_off());
                                },
                                VariableLocation::Register(_) => (),
                            }
                        }
                    }
                }
            }
            (location, true)
        }
    }

    /// The location of `name`: the recorded one if it is already bound,
    /// or a fresh binding.  A newly spilled variable is reported in the
    /// second component so the caller can grow the frame.
    pub fn get(&mut self, name: &str, line: u64, lifetime_checker: &mut LifetimeChecker) -> (r: (
        VariableLocation,
        bool,
    ))
        requires
            old(self).wf(),
            !has_var(old(self).vars(), name@) ==> lt_has(old(lifetime_checker)@, name@),
        ensures
            final(lifetime_checker)@ == old(lifetime_checker)@,
            final(self).wf(),
            ({
                let g = spec_get(
                    old(self).frees(),
                    old(self).vars(),
                    old(self).next_off(),
                    name@,
                    line,
                    clamp_end(lt_first(old(lifetime_checker)@, name@).end),
                );
                &&& final(self).frees() == g.0
                &&& final(self).vars() == g.1
                &&& final(self).next_off() == g.2
                &&& r.0 == g.3
                &&& r.1 == g.4
            }),
    {
        match self.find_var(name) {
            Some(j) => {
                proof {
                    assert(has_var(self.vars(), name@)) by {
                        assert(self.vars()[j as int].name == name@);
                    }
                    lemma_first_var_at(self.vars(), name@, j as int);
                }
                (self.variables[j].location, false)
            },
            None => self.allocate(name, line, lifetime_checker),
        }
    }

    /// How many locals have been spilled to the stack.
    pub fn get_num_stackvars(&mut self) -> (r: u64)
        requires
            old(self).vars().len() <= u64::MAX,
        ensures
            *final(self) == *old(self),
            r as nat == count_neg_stack(old(self).vars()),
    {
        let n = self.variables.len();
        let mut count: u64 = 0;
        let mut i: usize = 0;
        while i < n
            invariant
                i <= n,
                n == self.variables@.len(),
                n == self.vars().len(),
                n <= u64::MAX,
                count as nat == count_neg_stack(self.vars().take(i as int)),
                count <= i,
            decreases n - i,
        {
            let is_neg_stack = match self.variables[i].location {
                VariableLocation::Register(_) => false,
                VariableLocation::Stack(v) => v < 0,
            };
            proof {
                assert(self.vars()[i as int] == av_of(self.variables@[i as int]));
                assert(self.vars().take(i + 1) =~= self.vars().take(i as int).push(
                    self.vars()[i as int],
                ));
                assert(self.vars().take(i + 1).drop_last() =~= self.vars().take(i as int));
            }
            if is_neg_stack {
                count = count + 1;
            }
            i += 1;
        }
        proof {
            assert(self.vars().take(n as int) =~= self.vars());
        }
        count
    }
}

/// Whether some binding carries `name`.
pub open spec fn has_var(vars: Seq<AvM>, name: Seq<char>) -> bool {
    exists|j: int| 0 <= j < vars.len() && (#[trigger] vars[j]).name == name
}

/// The first binding carrying `name` — the one a lookup returns.
pub open spec fn first_var(vars: Seq<AvM>, name: Seq<char>) -> AvM
    decreases vars.len(),
{
    if vars.len() == 0 {
        AvM { location: VariableLocation::Stack(0), end: 0, name: name }
    } else if vars[0].name == name {
        vars[0]
    } else {
        first_var(vars.subrange(1, vars.len() as int), name)
    }
}

pub proof fn lemma_first_var_at(vars: Seq<AvM>, name: Seq<char>, j: int)
    requires
        0 <= j < vars.len(),
        vars[j].name == name,
        forall|k: int| 0 <= k < j ==> (#[trigger] vars[k]).name != name,
    ensures
        first_var(vars, name) == vars[j],
    decreases vars.len(),
{
    if j == 0 {
    } else {
        let t = vars.subrange(1, vars.len() as int);
        assert(t[j - 1] == vars[j]);
        assert(forall|k: int| 0 <= k < j - 1 ==> (#[trigger] t[k]).name != name);
        lemma_first_var_at(t, name, j - 1);
    }
}

/// The lifetime end a binding records: the read line, or zero when the
/// variable is never read.
pub open spec fn clamp_end(e: int) -> u64 {
    (if e >= 0 {
        e
    } else {
        0
    }) as u64
}

/// Functional form of a lookup: the first binding's location when the
/// name is bound, a fresh binding otherwise.  The components are the free
/// registers, the bindings, the next stack offset, the location, and
/// whether a fresh stack slot was taken.
pub open spec fn spec_get(
    frees: Seq<Register>,
    vars: Seq<AvM>,
    off: int,
    name: Seq<char>,
    line: u64,
    end: u64,
) -> (Seq<Register>, Seq<AvM>, int, VariableLocation, bool) {
    if has_var(vars, name) {
        (frees, vars, off, first_var(vars, name).location, false)
    } else {
        let kept = reclaim_kept(vars, line);
        let frees2 = frees + reclaim_freed(vars, line);
        if frees2.len() > 0 {
            let reg = frees2.last();
            (
                frees2.drop_last(),
                kept.push(AvM { location: VariableLocation::Register(reg), end: end, name: name }),
                off,
                VariableLocation::Register(reg),
                false,
            )
        } else {
            (
                frees2,
                kept.push(AvM { location: VariableLocation::Stack(off as i64), end: end, name: name }),
                if off > i64::MIN + 8 {
                    off - 8
                } else {
                    off
                },
                VariableLocation::Stack(off as i64),
                true,
            )
        }
    }
}

/// A binding survives reclamation if it is still live or sits on the
/// stack.
pub open spec fn av_keep(v: AvM, line: u64) -> bool {
    v.end >= line || (v.location matches VariableLocation::Stack(_))
}

pub open spec fn reclaim_kept(vars: Seq<AvM>, line: u64) -> Seq<AvM>
    decreases vars,
{
    if vars.len() == 0 {
        Seq::empty()
    } else {
        let rest = reclaim_kept(vars.drop_last(), line);
        if av_keep(vars.last(), line) {
            rest.push(vars.last())
        } else {
            rest
        }
    }
}

pub open spec fn reclaim_freed(vars: Seq<AvM>, line: u64) -> Seq<Register>
    decreases vars,
{
    if vars.len() == 0 {
        Seq::empty()
    } else {
        let rest = reclaim_freed(vars.drop_last(), line);
        if !av_keep(vars.last(), line) {
            match vars.last().location {
                VariableLocation::Register(rg) => rest.push(rg),
                VariableLocation::Stack(_) => rest,
            }
        } else {
            rest
        }
    }
}

/// How `allocate` relates the state before and after: the dead registers
/// return to the pool, and the variable is bound to the last free
/// register, or to the next stack slot when none is left.
pub open spec fn spec_allocate(
    prev: VariableAllocator,
    name: Seq<char>,
    line: u64,
    end_signed: int,
    next: VariableAllocator,
    r: (VariableLocation, bool),
) -> bool {
    let kept = reclaim_kept(prev.vars(), line);
    let frees2 = prev.frees() + reclaim_freed(prev.vars(), line);
    let end = (if end_signed >= 0 {
        end_signed
    } else {
        0
    }) as u64;
    if frees2.len() > 0 {
        let reg = frees2.last();
        &&& r.0 == VariableLocation::Register(reg)
        &&& r.1 == false
        &&& next.frees() == frees2.drop_last()
        &&& next.vars() == kept.push(AvM { location: r.0, end: end, name: name })
        &&& next.next_off() == prev.next_off()
    } else {
        &&& r.0 == VariableLocation::Stack(prev.next_off() as i64)
        &&& r.1 == true
        &&& next.frees() == frees2
        &&& next.vars() == kept.push(AvM { location: r.0, end: end, name: name })
        &&& next.next_off() == (if prev.next_off() > i64::MIN + 8 {
            prev.next_off() - 8
        } else {
            prev.next_off()
        })
    }
}

pub open spec fn count_neg_stack(vars: Seq<AvM>) -> nat
    decreases vars,
{
    if vars.len() == 0 {
        0
    } else {
        count_neg_stack(vars.drop_last()) + (match vars.last().location {
            VariableLocation::Stack(o) => if o < 0 {
                1nat
            } else {
                0nat
            },
            VariableLocation::Register(_) => 0nat,
        })
    }
}

proof fn lemma_initial_registers_distinct()
    ensures
        forall|i: int, j: int|
            0 <= i < j < initial_registers().len() ==> initial_registers()[i]
                != initial_registers()[j],
{
}

/// The `k`-th kept binding is one of the original ones, and it was live.
pub open spec fn kept_witness(vars: Seq<AvM>, line: u64, k: int) -> bool {
    exists|j: int|
        0 <= j < vars.len() && #[trigger] vars[j] == reclaim_kept(vars, line)[k] && av_keep(
            vars[j],
            line,
        )
}

/// Every kept binding and freed register comes from the original list.
proof fn lemma_reclaim_elems(vars: Seq<AvM>, line: u64)
    ensures
        forall|k: int|
            0 <= k < reclaim_kept(vars, line).len() ==> #[trigger] kept_witness(vars, line, k),
        forall|k: int|
            0 <= k < reclaim_freed(vars, line).len() ==> exists|j: int|
                0 <= j < vars.len() && vars[j].location == VariableLocation::Register(
                    #[trigger] reclaim_freed(vars, line)[k],
                ) && !av_keep(vars[j], line),
    decreases vars,
{
    if vars.len() > 0 {
        lemma_reclaim_elems(vars.drop_last(), line);
        assert forall|k: int|
            0 <= k < reclaim_kept(vars, line).len() implies #[trigger] kept_witness(
            vars,
            line,
            k,
        ) by {
            let kk = reclaim_kept(vars.drop_last(), line);
            if k < kk.len() {
                assert(kept_witness(vars.drop_last(), line, k));
                let j = choose|j: int|
                    0 <= j < vars.drop_last().len() && vars.drop_last()[j] == kk[k] && av_keep(
                        vars.drop_last()[j],
                        line,
                    );
                assert(vars[j] == reclaim_kept(vars, line)[k] && av_keep(vars[j], line));
            } else {
                assert(vars[vars.len() - 1] == reclaim_kept(vars, line)[k] && av_keep(
                    vars[vars.len() - 1],
                    line,
                ));
            }
        }
        assert forall|k: int|
            0 <= k < reclaim_freed(vars, line).len() implies exists|j: int|
            0 <= j < vars.len() && vars[j].location == VariableLocation::Register(
                #[trigger] reclaim_freed(vars, line)[k],
            ) && !av_keep(vars[j], line) by {
            let ff = reclaim_freed(vars.drop_last(), line);
            if k < ff.len() {
                let j = choose|j: int|
                    0 <= j < vars.drop_last().len() && vars.drop_last()[j].location
                        == VariableLocation::Register(ff[k]) && !av_keep(
                        vars.drop_last()[j],
                        line,
                    );
                assert(vars[j].location == VariableLocation::Register(
                    reclaim_freed(vars, line)[k],
                ) && !av_keep(vars[j], line));
            } else {
                assert(vars[vars.len() - 1].location == VariableLocation::Register(
                    reclaim_freed(vars, line)[k],
                ) && !av_keep(vars[vars.len() - 1], line));
            }
        }
    }
}

/// Two kept bindings come from two original bindings in the same order.
pub open spec fn kept_pair_witness(vars: Seq<AvM>, line: u64, a: int, b: int) -> bool {
    exists|x: int, y: int|
        0 <= x < y < vars.len() && (#[trigger] vars[x]) == reclaim_kept(vars, line)[a] && (
        #[trigger] vars[y]) == reclaim_kept(vars, line)[b]
}

proof fn lemma_reclaim_kept_pairs(vars: Seq<AvM>, line: u64)
    ensures
        forall|a: int, b: int|
            0 <= a < b < reclaim_kept(vars, line).len() ==> #[trigger] kept_pair_witness(
                vars,
                line,
                a,
                b,
            ),
    decreases vars,
{
    if vars.len() > 0 {
        lemma_reclaim_kept_pairs(vars.drop_last(), line);
        lemma_reclaim_elems(vars.drop_last(), line);
        let kk = reclaim_kept(vars.drop_last(), line);
        assert forall|a: int, b: int|
            0 <= a < b < reclaim_kept(vars, line).len() implies #[trigger] kept_pair_witness(
            vars,
            line,
            a,
            b,
        ) by {
            if b < kk.len() {
                assert(kept_pair_witness(vars.drop_last(), line, a, b));
                let (x, y): (int, int) = choose|x: int, y: int|
                    0 <= x < y < vars.drop_last().len() && vars.drop_last()[x] == kk[a]
                        && vars.drop_last()[y] == kk[b];
                assert(vars[x] == reclaim_kept(vars, line)[a] && vars[y] == reclaim_kept(
                    vars,
                    line,
                )[b]);
            } else {
                assert(kept_witness(vars.drop_last(), line, a));
                let x = choose|x: int|
                    0 <= x < vars.drop_last().len() && vars.drop_last()[x] == kk[a] && av_keep(
                        vars.drop_last()[x],
                        line,
                    );
                assert(vars[x] == reclaim_kept(vars, line)[a] && vars[vars.len() - 1]
                    == reclaim_kept(vars, line)[b]);
            }
        }
    }
}

/// The freed registers are pairwise distinct and disjoint from the kept
/// bindings and the previous pool.
proof fn lemma_reclaim_wf(prev: &VariableAllocator, cur: &VariableAllocator, line: u64)
    requires
        prev.wf(),
        cur.wf_after_check(prev, line),
    ensures
        cur.wf(),
        forall|i: int, j: int|
            0 <= i < cur.frees().len() && 0 <= j < cur.vars().len()
                ==> (#[trigger] cur.vars()[j]).location != VariableLocation::Register(
                #[trigger] cur.frees()[i],
            ),
{
    let kept = reclaim_kept(prev.vars(), line);
    let freed = reclaim_freed(prev.vars(), line);
    lemma_reclaim_elems(prev.vars(), line);
    lemma_reclaim_kept_pairs(prev.vars(), line);
    lemma_reclaim_freed_pairs(prev.vars(), line);
    assert forall|i: int, j: int|
        0 <= i < j < cur.frees().len() implies cur.frees()[i] != cur.frees()[j] by {
        if i < prev.frees().len() && j >= prev.frees().len() {
            let jj = j - prev.frees().len();
            let y = choose|y: int|
                0 <= y < prev.vars().len() && prev.vars()[y].location
                    == VariableLocation::Register(freed[jj]) && !av_keep(prev.vars()[y], line);
            assert(prev.vars()[y].location != VariableLocation::Register(prev.frees()[i]));
        } else if i >= prev.frees().len() {
            let ii = i - prev.frees().len();
            let jj = j - prev.frees().len();
            let (x, y): (int, int) = choose|x: int, y: int|
                0 <= x < y < prev.vars().len() && prev.vars()[x].location
                    == VariableLocation::Register(freed[ii]) && prev.vars()[y].location
                    == VariableLocation::Register(freed[jj]);
            assert(prev.vars()[x].location != prev.vars()[y].location);
        }
    }
    assert forall|i: int, j: int|
        0 <= i < cur.frees().len() && 0 <= j < cur.vars().len() implies (
    #[trigger] cur.vars()[j]).location != VariableLocation::Register(
        #[trigger] cur.frees()[i],
    ) by {
        assert(kept_witness(prev.vars(), line, j));
        let x = choose|x: int|
            0 <= x < prev.vars().len() && prev.vars()[x] == kept[j] && av_keep(
                prev.vars()[x],
                line,
            );
        if i < prev.frees().len() {
            assert(prev.vars()[x].location != VariableLocation::Register(prev.frees()[i]));
        } else {
            let ii = i - prev.frees().len();
            let y = choose|y: int|
                0 <= y < prev.vars().len() && prev.vars()[y].location
                    == VariableLocation::Register(freed[ii]) && !av_keep(prev.vars()[y], line);
            if x != y {
                if (prev.vars()[x].location matches VariableLocation::Register(_)) {
                    if x < y {
                        assert(prev.vars()[x].location != prev.vars()[y].location);
                    } else {
                        assert(prev.vars()[y].location != prev.vars()[x].location);
                    }
                }
            } else {
                assert(av_keep(prev.vars()[x], line) && !av_keep(prev.vars()[y], line));
            }
        }
    }
    assert forall|a: int, b: int|
        0 <= a < b < cur.vars().len() implies (((#[trigger] cur.vars()[a]).location matches
    VariableLocation::Register(_)) && ((#[trigger] cur.vars()[b]).location matches
    VariableLocation::Register(_)) ==> cur.vars()[a].location != cur.vars()[b].location) by {
        assert(kept_pair_witness(prev.vars(), line, a, b));
        let (x, y): (int, int) = choose|x: int, y: int|
            0 <= x < y < prev.vars().len() && prev.vars()[x] == kept[a] && prev.vars()[y]
                == kept[b];
        assert(prev.vars()[x].location != prev.vars()[y].location || !(prev.vars()[x].location
            matches VariableLocation::Register(_)) || !(prev.vars()[y].location matches
        VariableLocation::Register(_)));
    }
    if cur.next_off() > i64::MIN + 8 {
        assert forall|a: int, b: int|
            0 <= a < b < cur.vars().len() implies compatible_locations(
            (#[trigger] cur.vars()[a]).location,
            (#[trigger] cur.vars()[b]).location,
        ) by {
            assert(kept_pair_witness(prev.vars(), line, a, b));
            let (x, y): (int, int) = choose|x: int, y: int|
                0 <= x < y < prev.vars().len() && prev.vars()[x] == kept[a] && prev.vars()[y]
                    == kept[b];
            assert(compatible_locations(prev.vars()[x].location, prev.vars()[y].location));
        }
        assert forall|i: int|
            0 <= i < cur.vars().len() implies ((#[trigger] cur.vars()[i]).location matches
        VariableLocation::Stack(o) ==> o > cur.next_off()) by {
            assert(kept_witness(prev.vars(), line, i));
            let x = choose|x: int|
                0 <= x < prev.vars().len() && prev.vars()[x] == kept[i] && av_keep(
                    prev.vars()[x],
                    line,
                );
        }
    }
}

proof fn lemma_reclaim_freed_pairs(vars: Seq<AvM>, line: u64)
    ensures
        forall|a: int, b: int|
            0 <= a < b < reclaim_freed(vars, line).len() ==> exists|x: int, y: int|
                0 <= x < y < vars.len() && vars[x].location == VariableLocation::Register(
                    #[trigger] reclaim_freed(vars, line)[a],
                ) && vars[y].location == VariableLocation::Register(
                    #[trigger] reclaim_freed(vars, line)[b],
                ),
    decreases vars,
{
    if vars.len() > 0 {
        lemma_reclaim_freed_pairs(vars.drop_last(), line);
        lemma_reclaim_elems(vars.drop_last(), line);
        let ff = reclaim_freed(vars.drop_last(), line);
        assert forall|a: int, b: int|
            0 <= a < b < reclaim_freed(vars, line).len() implies exists|x: int, y: int|
            0 <= x < y < vars.len() && vars[x].location == VariableLocation::Register(
                #[trigger] reclaim_freed(vars, line)[a],
            ) && vars[y].location == VariableLocation::Register(
                #[trigger] reclaim_freed(vars, line)[b],
            ) by {
            if b < ff.len() {
                let (x, y): (int, int) = choose|x: int, y: int|
                    0 <= x < y < vars.drop_last().len() && vars.drop_last()[x].location
                        == VariableLocation::Register(ff[a]) && vars.drop_last()[y].location
                        == VariableLocation::Register(ff[b]);
                assert(vars[x].location == VariableLocation::Register(
                    reclaim_freed(vars, line)[a],
                ) && vars[y].location == VariableLocation::Register(
                    reclaim_freed(vars, line)[b],
                ));
            } else {
                let x = choose|x: int|
                    0 <= x < vars.drop_last().len() && vars.drop_last()[x].location
                        == VariableLocation::Register(ff[a]) && !av_keep(
                        vars.drop_last()[x],
                        line,
                    );
                assert(vars[x].location == VariableLocation::Register(
                    reclaim_freed(vars, line)[a],
                ) && vars[vars.len() - 1].location == VariableLocation::Register(
                    reclaim_freed(vars, line)[b],
                ));
            }
        }
    }
}

/// Allocator safety: no two bound variables share a register, so at any
/// line the registers of the live variables are pairwise distinct.
pub proof fn lemma_allocator_safety(a: &VariableAllocator)
    requires
        a.wf(),
    ensures
        forall|i: int, j: int|
            0 <= i < j < a.vars().len() && ((#[trigger] a.vars()[i]).location matches
                VariableLocation::Register(_)) && ((#[trigger] a.vars()[j]).location matches
                VariableLocation::Register(_)) ==> a.vars()[i].location != a.vars()[j].location,
{
    assert forall|i: int, j: int|
        0 <= i < j < a.vars().len() && ((#[trigger] a.vars()[i]).location matches
        VariableLocation::Register(_)) && ((#[trigger] a.vars()[j]).location matches
        VariableLocation::Register(_)) implies a.vars()[i].location != a.vars()[j].location by {
        assert(compatible_locations(a.vars()[i].location, a.vars()[j].location));
    }
}

} // verus!
