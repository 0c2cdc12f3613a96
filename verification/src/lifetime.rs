//! Variable liveness over the flat instruction sequence.
//!
//! One forward pass records, for every variable, the line of its defining
//! instruction (`start`) and the last line that reads it (`end`).
//! Parameters are alive from line 0; a `KeepAlive` marker extends a
//! variable's end explicitly.  The pass is specified by the functional
//! mirror `lt_checker`, and `lemma_liveness_sound` proves that on
//! instruction sequences whose reads are all preceded by a definition (or
//! a parameter), every read of `v` at line `L` falls inside
//! `[start(v), end(v)]`.

use vstd::prelude::*;
use crate::ir::{Data, DataM, IrInstruction, IrM, data_m, datas_m, irs_m};
use crate::parser::{self, str_views};
use crate::names::str_eq;

verus! {

pub struct Lifetime {
    name: String,
    start: i64,
    end: i64,
}

pub struct LifetimeChecker {
    lifetimes: Vec<Lifetime>,
}

/// Model of one recorded interval.
pub struct LtM {
    pub name: Seq<char>,
    pub start: int,
    pub end: int,
}

/// The interval a stored entry denotes.
spec fn lt_of(l: Lifetime) -> LtM {
    LtM { name: l.name@, start: l.start as int, end: l.end as int }
}

impl View for LifetimeChecker {
    type V = Seq<LtM>;

    closed spec fn view(&self) -> Seq<LtM> {
        self.lifetimes@.map_values(|l: Lifetime| lt_of(l))
    }
}

// ------------------------------------------------------------------
// the functional mirror of the pass

pub open spec fn lt_set_end(s: Seq<LtM>, name: Seq<char>, line: int) -> Seq<LtM> {
    s.map_values(
        |l: LtM|
            if l.name == name {
                LtM { name: l.name, start: l.start, end: line }
            } else {
                l
            },
    )
}

pub open spec fn lt_add(s: Seq<LtM>, name: Seq<char>, line: int) -> Seq<LtM> {
    s.push(LtM { name: name, start: line, end: line })
}

/// A read of `d` at `line` extends the matching intervals.
pub open spec fn lt_check_end(s: Seq<LtM>, d: DataM, line: int) -> Seq<LtM> {
    match d {
        DataM::Num(_) => s,
        DataM::Var(v) => lt_set_end(s, v, line),
    }
}

pub open spec fn lt_check_ends(s: Seq<LtM>, ds: Seq<DataM>, line: int) -> Seq<LtM>
    decreases ds,
{
    if ds.len() == 0 {
        s
    } else {
        lt_check_end(lt_check_ends(s, ds.drop_last(), line), ds.last(), line)
    }
}

/// The effect of one instruction at its line: reads first, then the
/// definition, if any.
pub open spec fn lt_step(s: Seq<LtM>, inst: IrM, line: int) -> Seq<LtM> {
    match inst {
        IrM::Jump(_) => s,
        IrM::JumpFalse(d, _) => lt_check_end(s, d, line),
        IrM::Label(_) => s,
        IrM::Call(res, _, args) => lt_add(lt_check_ends(s, args, line), res, line),
        IrM::Bin(_, res, d1, d2) => lt_add(
            lt_check_end(lt_check_end(s, d1, line), d2, line),
            res,
            line,
        ),
        IrM::Assign(res, d) => lt_add(lt_check_end(s, d, line), res, line),
        IrM::Return(d) => lt_check_end(s, d, line),
        IrM::KeepAlive(v) => lt_set_end(s, v, line),
    }
}

pub open spec fn lt_fold(s0: Seq<LtM>, instrs: Seq<IrM>) -> Seq<LtM>
    decreases instrs,
{
    if instrs.len() == 0 {
        s0
    } else {
        lt_step(lt_fold(s0, instrs.drop_last()), instrs.last(), instrs.len() - 1)
    }
}

/// Parameters are alive from line 0.
pub open spec fn lt_init(params: Seq<Seq<char>>) -> Seq<LtM> {
    params.map_values(|p: Seq<char>| LtM { name: p, start: 0, end: 0 })
}

/// The intervals after the whole pass.
pub open spec fn lt_checker(instrs: Seq<IrM>, params: Seq<Seq<char>>) -> Seq<LtM> {
    lt_fold(lt_init(params), instrs)
}

/// Whether some interval is recorded for `name`.
pub open spec fn lt_has(s: Seq<LtM>, name: Seq<char>) -> bool {
    exists|i: int| 0 <= i < s.len() && (#[trigger] s[i]).name == name
}

/// The first recorded interval for `name` — the one the lookup functions
/// return.
pub open spec fn lt_first(s: Seq<LtM>, name: Seq<char>) -> LtM
    decreases s.len(),
{
    if s.len() == 0 {
        LtM { name: name, start: 0, end: 0 }
    } else if s[0].name == name {
        s[0]
    } else {
        lt_first(s.subrange(1, s.len() as int), name)
    }
}

/// Characterises `lt_first` by the index of the first match.
pub proof fn lemma_lt_first_index(s: Seq<LtM>, name: Seq<char>, j: int)
    requires
        0 <= j < s.len(),
        s[j].name == name,
        forall|k: int| 0 <= k < j ==> (#[trigger] s[k]).name != name,
    ensures
        lt_first(s, name) == s[j],
    decreases s.len(),
{
    if j == 0 {
    } else {
        let t = s.subrange(1, s.len() as int);
        assert(t[j - 1] == s[j]);
        assert(forall|k: int| 0 <= k < j - 1 ==> (#[trigger] t[k]).name != name);
        lemma_lt_first_index(t, name, j - 1);
    }
}

impl LifetimeChecker {
    pub fn new() -> (r: Self)
        ensures
            r@ == Seq::<LtM>::empty(),
    {
        let r = LifetimeChecker { lifetimes: Vec::new() };
        proof {
            assert(r@ =~= Seq::<LtM>::empty());
        }
        r
    }

    /// Finds the index of the first interval recorded for `name`.
    fn find_first(&self, name: &str) -> (r: Option<usize>)
        ensures
            match r {
                Some(j) => j < self@.len() && self@[j as int].name == name@ && (forall|k: int|
                    0 <= k < j ==> (#[trigger] self@[k]).name != name@) && lt_first(
                    self@,
                    name@,
                ) == self@[j as int],
                None => !lt_has(self@, name@),
            },
    {
        let n = self.lifetimes.len();
        let mut i: usize = 0;
        while i < n
            invariant
                i <= n,
                n == self.lifetimes@.len(),
                n == self@.len(),
                forall|k: int| 0 <= k < i ==> (#[trigger] self@[k]).name != name@,
            decreases n - i,
        {
            if str_eq(self.lifetimes[i].name.as_str(), name) {
                proof {
                    assert(self@[i as int].name == name@);
                    lemma_lt_first_index(self@, name@, i as int);
                }
                return Some(i);
            }
            proof {
                assert(self@[i as int].name == self.lifetimes@[i as int].name@);
            }
            i += 1;
        }
        None
    }

    /// Whether `name` has a recorded interval.
    pub fn has_lifetime(&self, name: &str) -> (r: bool)
        ensures
            r == lt_has(self@, name@),
    {
        match self.find_first(name) {
            Some(j) => {
                proof {
                    assert(self@[j as int].name == name@);
                }
                true
            },
            None => false,
        }
    }

    /// The line on which `name` is defined; `name` must have been
    /// recorded.
    pub fn get_start_lifetime(&mut self, name: &str) -> (r: i64)
        requires
            lt_has(old(self)@, name@),
        ensures
            final(self)@ == old(self)@,
            r as int == lt_first(old(self)@, name@).start,
    {
        let j = match self.find_first(name) {
            Some(j) => j,
            None => {
                proof {
                    assert(false);
                }
                0
            },
        };
        self.lifetimes[j].start
    }

    /// The last line on which `name` is read; `name` must have been
    /// recorded.
    pub fn get_end_lifetime(&mut self, name: &str) -> (r: i64)
        requires
            lt_has(old(self)@, name@),
        ensures
            final(self)@ == old(self)@,
            r as int == lt_first(old(self)@, name@).end,
    {
        let j = match self.find_first(name) {
            Some(j) => j,
            None => {
                proof {
                    assert(false);
                }
                0
            },
        };
        self.lifetimes[j].end
    }

    fn set_start_lifetime(&mut self, name: String, line: i64)
        ensures
            final(self)@ == lt_add(old(self)@, name@, line as int),
    {
        self.lifetimes.push(Lifetime { name: name, start: line, end: line });
        proof {
            assert(final(self)@ =~= lt_add(old(self)@, name@, line as int));
        }
    }

    fn set_end_lifetime(&mut self, name: String, line: i64)
        ensures
            final(self)@ == lt_set_end(old(self)@, name@, line as int),
    {
        let n = self.lifetimes.len();
        let mut out: Vec<Lifetime> = Vec::new();
        let mut i: usize = 0;
        while i < n
            invariant
                i <= n,
                n == self.lifetimes@.len(),
                self@ == old(self)@,
                out@.len() == i,
                forall|k: int|
                    0 <= k < i ==> lt_of(#[trigger] out@[k]) == lt_set_end(
                        old(self)@,
                        name@,
                        line as int,
                    )[k],
            decreases n - i,
        {
            let ghost target = lt_set_end(old(self)@, name@, line as int)[i as int];
            proof {
                assert(self@[i as int].name == self.lifetimes@[i as int].name@);
            }
            let matched = str_eq(self.lifetimes[i].name.as_str(), name.as_str());
            let l = &self.lifetimes[i];
            if matched {
                out.push(Lifetime { name: l.name.clone(), start: l.start, end: line });
            } else {
                out.push(Lifetime { name: l.name.clone(), start: l.start, end: l.end });
            }
            proof {
                assert(lt_of(out@[i as int]) == target);
            }
            i += 1;
        }
        self.lifetimes = out;
        proof {
            assert(final(self)@ =~= lt_set_end(old(self)@, name@, line as int));
        }
    }
}

/// A read of `data` at `line` extends the end of the matching interval.
pub fn check_end_lifetime(data: &Data, line: i64, lifetime_checker: &mut LifetimeChecker)
    ensures
        final(lifetime_checker)@ == lt_check_end(old(lifetime_checker)@, data_m(*data), line as int),
{
    match data {
        Data::Number(_) => (),
        Data::Variable(v) => lifetime_checker.set_end_lifetime(v.clone(), line),
    }
}

// ------------------------------------------------------------------
// soundness of the recorded intervals

/// The variables an operand reads.
pub open spec fn data_vars(d: DataM) -> Seq<Seq<char>> {
    match d {
        DataM::Num(_) => Seq::empty(),
        DataM::Var(v) => seq![v],
    }
}

pub open spec fn datas_vars(ds: Seq<DataM>) -> Seq<Seq<char>>
    decreases ds,
{
    if ds.len() == 0 {
        Seq::empty()
    } else {
        datas_vars(ds.drop_last()) + data_vars(ds.last())
    }
}

/// The variables an instruction reads.  A `KeepAlive` is a liveness marker,
/// not a read.
pub open spec fn reads_of(inst: IrM) -> Seq<Seq<char>> {
    match inst {
        IrM::Jump(_) => Seq::empty(),
        IrM::JumpFalse(d, _) => data_vars(d),
        IrM::Label(_) => Seq::empty(),
        IrM::Call(_, _, args) => datas_vars(args),
        IrM::Bin(_, _, d1, d2) => data_vars(d1) + data_vars(d2),
        IrM::Assign(_, d) => data_vars(d),
        IrM::Return(d) => data_vars(d),
        IrM::KeepAlive(_) => Seq::empty(),
    }
}

/// The variable an instruction defines, if any.
pub open spec fn def_of(inst: IrM) -> Option<Seq<char>> {
    match inst {
        IrM::Call(res, _, _) => Some(res),
        IrM::Bin(_, res, _, _) => Some(res),
        IrM::Assign(res, _) => Some(res),
        _ => None,
    }
}

/// Every read refers to a parameter or to a variable defined on the same
/// or an earlier line.
pub open spec fn defs_before_uses(instrs: Seq<IrM>, params: Seq<Seq<char>>) -> bool {
    forall|l: int, k: int|
        0 <= l < instrs.len() && 0 <= k < reads_of(instrs[l]).len() ==> params.contains(
            #[trigger] reads_of(instrs[l])[k],
        ) || exists|l2: int|
            0 <= l2 <= l && def_of(instrs[l2]) == Some(reads_of(instrs[l])[k])
}

/// All recorded starts are at most `b`.
pub open spec fn starts_le(s: Seq<LtM>, b: int) -> bool {
    forall|j: int| 0 <= j < s.len() ==> (#[trigger] s[j]).start <= b
}

/// `lt_first` returns one of the entries, and it carries the looked-up
/// name.
proof fn lemma_lt_first_elem(s: Seq<LtM>, v: Seq<char>)
    requires
        lt_has(s, v),
    ensures
        exists|j: int| 0 <= j < s.len() && s[j] == lt_first(s, v),
        lt_first(s, v).name == v,
    decreases s.len(),
{
    if s[0].name == v {
    } else {
        let t = s.subrange(1, s.len() as int);
        assert(lt_has(t, v)) by {
            let j = choose|j: int| 0 <= j < s.len() && (#[trigger] s[j]).name == v;
            assert(t[j - 1].name == v);
        }
        lemma_lt_first_elem(t, v);
        let j = choose|j: int| 0 <= j < t.len() && t[j] == lt_first(t, v);
        assert(s[j + 1] == lt_first(s, v));
    }
}

proof fn lemma_first_push(s: Seq<LtM>, e: LtM, v: Seq<char>)
    ensures
        lt_has(s.push(e), v) == (lt_has(s, v) || e.name == v),
        lt_has(s, v) ==> lt_first(s.push(e), v) == lt_first(s, v),
        !lt_has(s, v) && e.name == v ==> lt_first(s.push(e), v) == e,
    decreases s.len(),
{
    if lt_has(s.push(e), v) {
        let j = choose|j: int|
            0 <= j < s.push(e).len() && (#[trigger] s.push(e)[j]).name == v;
        if j < s.len() {
            assert(s[j].name == v);
        }
    }
    if lt_has(s, v) {
        let j = choose|j: int| 0 <= j < s.len() && (#[trigger] s[j]).name == v;
        assert(s.push(e)[j].name == v);
    }
    if e.name == v {
        assert(s.push(e)[s.len() as int].name == v);
    }
    if s.len() == 0 {
    } else {
        assert(s.push(e).subrange(1, s.push(e).len() as int) =~= s.subrange(
            1,
            s.len() as int,
        ).push(e));
        if s[0].name == v {
        } else {
            assert(lt_has(s, v) <==> lt_has(s.subrange(1, s.len() as int), v)) by {
                if lt_has(s, v) {
                    let j = choose|j: int| 0 <= j < s.len() && (#[trigger] s[j]).name == v;
                    assert(s.subrange(1, s.len() as int)[j - 1].name == v);
                }
                if lt_has(s.subrange(1, s.len() as int), v) {
                    let j = choose|j: int|
                        0 <= j < s.subrange(1, s.len() as int).len() && (#[trigger] s.subrange(
                            1,
                            s.len() as int,
                        )[j]).name == v;
                    assert(s[j + 1].name == v);
                }
            }
            lemma_first_push(s.subrange(1, s.len() as int), e, v);
        }
    }
}

proof fn lemma_first_set_end(s: Seq<LtM>, name: Seq<char>, line: int, v: Seq<char>)
    ensures
        lt_has(lt_set_end(s, name, line), v) == lt_has(s, v),
        lt_has(s, v) && v == name ==> lt_first(lt_set_end(s, name, line), v) == (LtM {
            name: v,
            start: lt_first(s, v).start,
            end: line,
        }),
        lt_has(s, v) && v != name ==> lt_first(lt_set_end(s, name, line), v) == lt_first(s, v),
    decreases s.len(),
{
    let s2 = lt_set_end(s, name, line);
    assert forall|j: int| 0 <= j < s.len() implies (#[trigger] s2[j]).name == s[j].name by {}
    if lt_has(s2, v) {
        let j = choose|j: int| 0 <= j < s2.len() && (#[trigger] s2[j]).name == v;
        assert(s[j].name == v);
    }
    if lt_has(s, v) {
        let j = choose|j: int| 0 <= j < s.len() && (#[trigger] s[j]).name == v;
        assert(s2[j].name == v);
        if s.len() > 0 {
            if s[0].name == v {
                assert(s2[0] == (if v == name {
                    LtM { name: v, start: s[0].start, end: line }
                } else {
                    s[0]
                }));
            } else {
                let t = s.subrange(1, s.len() as int);
                assert(lt_has(t, v)) by {
                    assert(t[j - 1].name == v);
                }
                assert(s2.subrange(1, s2.len() as int) =~= lt_set_end(t, name, line));
                lemma_first_set_end(t, name, line, v);
            }
        }
    }
}

/// Reads never remove entries, never move a start, and only move an end to
/// the read's own line.
proof fn lemma_check_ends_pres(s: Seq<LtM>, ds: Seq<DataM>, line: int, v: Seq<char>)
    ensures
        lt_has(lt_check_ends(s, ds, line), v) == lt_has(s, v),
        lt_has(s, v) ==> ({
            let f1 = lt_first(s, v);
            let f2 = lt_first(lt_check_ends(s, ds, line), v);
            f2.name == v && f2.start == f1.start && (f2.end == f1.end || f2.end == line)
        }),
        lt_has(s, v) && datas_vars(ds).contains(v) ==> lt_first(
            lt_check_ends(s, ds, line),
            v,
        ).end == line,
    decreases ds,
{
    if ds.len() == 0 {
        if lt_has(s, v) {
            lemma_lt_first_elem(s, v);
        }
    } else {
        lemma_check_ends_pres(s, ds.drop_last(), line, v);
        let s1 = lt_check_ends(s, ds.drop_last(), line);
        match ds.last() {
            DataM::Num(_) => {
                if datas_vars(ds).contains(v) {
                    assert(datas_vars(ds) =~= datas_vars(ds.drop_last()));
                }
                if lt_has(s, v) {
                    lemma_lt_first_elem(s, v);
                }
            },
            DataM::Var(w) => {
                lemma_first_set_end(s1, w, line, v);
                if lt_has(s, v) {
                    lemma_lt_first_elem(s, v);
                    if datas_vars(ds).contains(v) && v != w {
                        assert(datas_vars(ds.drop_last()).contains(v)) by {
                            let j = choose|j: int|
                                0 <= j < datas_vars(ds).len() && datas_vars(ds)[j] == v;
                            assert(datas_vars(ds) == datas_vars(ds.drop_last()) + data_vars(
                                ds.last(),
                            ));
                            assert(datas_vars(ds.drop_last())[j] == v);
                        }
                    }
                }
            },
        }
    }
}

proof fn lemma_check_end_pres(s: Seq<LtM>, d: DataM, line: int, v: Seq<char>)
    ensures
        lt_has(lt_check_end(s, d, line), v) == lt_has(s, v),
        lt_has(s, v) ==> ({
            let f1 = lt_first(s, v);
            let f2 = lt_first(lt_check_end(s, d, line), v);
            f2.name == v && f2.start == f1.start && (f2.end == f1.end || f2.end == line)
        }),
        lt_has(s, v) && data_vars(d).contains(v) ==> lt_first(lt_check_end(s, d, line), v).end
            == line,
{
    match d {
        DataM::Num(_) => {
            if lt_has(s, v) {
                lemma_lt_first_elem(s, v);
            }
        },
        DataM::Var(w) => {
            lemma_first_set_end(s, w, line, v);
            if lt_has(s, v) {
                lemma_lt_first_elem(s, v);
            }
        },
    }
}

/// One pass step: existing intervals stay, their starts stay, and their
/// ends move only to the step's line; a read of `v` moves its end there;
/// a definition of `v` creates its interval if none exists.
proof fn lemma_step_props(s: Seq<LtM>, inst: IrM, line: int, v: Seq<char>)
    ensures
        lt_has(s, v) ==> lt_has(lt_step(s, inst, line), v),
        lt_has(s, v) ==> ({
            let f1 = lt_first(s, v);
            let f2 = lt_first(lt_step(s, inst, line), v);
            f2.name == v && f2.start == f1.start && (f2.end == f1.end || f2.end == line)
        }),
        lt_has(s, v) && reads_of(inst).contains(v) ==> lt_first(lt_step(s, inst, line), v).end
            == line,
        def_of(inst) == Some(v) ==> lt_has(lt_step(s, inst, line), v),
        def_of(inst) == Some(v) && !lt_has(s, v) ==> lt_first(lt_step(s, inst, line), v) == (LtM {
            name: v,
            start: line,
            end: line,
        }),
{
    match inst {
        IrM::Jump(_) => {
            if lt_has(s, v) {
                lemma_lt_first_elem(s, v);
            }
        },
        IrM::Label(_) => {
            if lt_has(s, v) {
                lemma_lt_first_elem(s, v);
            }
        },
        IrM::JumpFalse(d, _) => {
            lemma_check_end_pres(s, d, line, v);
        },
        IrM::Return(d) => {
            lemma_check_end_pres(s, d, line, v);
        },
        IrM::KeepAlive(w) => {
            lemma_first_set_end(s, w, line, v);
            if lt_has(s, v) {
                lemma_lt_first_elem(s, v);
            }
        },
        IrM::Call(res, _, args) => {
            lemma_check_ends_pres(s, args, line, v);
            lemma_first_push(
                lt_check_ends(s, args, line),
                LtM { name: res, start: line, end: line },
                v,
            );
        },
        IrM::Bin(_, res, d1, d2) => {
            lemma_check_end_pres(s, d1, line, v);
            let s1 = lt_check_end(s, d1, line);
            lemma_check_end_pres(s1, d2, line, v);
            let s2 = lt_check_end(s1, d2, line);
            lemma_first_push(s2, LtM { name: res, start: line, end: line }, v);
            if lt_has(s, v) && reads_of(inst).contains(v) {
                if data_vars(d2).contains(v) {
                } else {
                    assert(data_vars(d1).contains(v)) by {
                        let j = choose|j: int|
                            0 <= j < reads_of(inst).len() && reads_of(inst)[j] == v;
                        if j >= data_vars(d1).len() {
                            assert(data_vars(d2)[j - data_vars(d1).len()] == v);
                        }
                    }
                    assert(lt_first(s1, v).end == line);
                    assert(lt_first(s2, v).end == line || lt_first(s2, v).end == line);
                }
            }
        },
        IrM::Assign(res, d) => {
            lemma_check_end_pres(s, d, line, v);
            lemma_first_push(
                lt_check_end(s, d, line),
                LtM { name: res, start: line, end: line },
                v,
            );
        },
    }
}

/// Starts recorded by a step never exceed the step's line.
proof fn lemma_step_starts(s: Seq<LtM>, inst: IrM, line: int, b: int)
    requires
        starts_le(s, b),
        line <= b,
    ensures
        starts_le(lt_step(s, inst, line), b),
{
    let s2 = lt_step(s, inst, line);
    assert forall|j: int| 0 <= j < s2.len() implies (#[trigger] s2[j]).start <= b by {
        match inst {
            IrM::Jump(_) => {
                assert(s2[j] == s[j]);
            },
            IrM::Label(_) => {
                assert(s2[j] == s[j]);
            },
            IrM::JumpFalse(d, _) => {
                lemma_check_end_start_idx(s, d, line, j);
            },
            IrM::Return(d) => {
                lemma_check_end_start_idx(s, d, line, j);
            },
            IrM::KeepAlive(w) => {
                assert(s2[j].start == s[j].start);
            },
            IrM::Call(res, _, args) => {
                if j < s.len() {
                    lemma_check_ends_starts(s, args, line, j);
                    assert(s2[j] == lt_check_ends(s, args, line)[j]);
                } else {
                    lemma_check_ends_len(s, args, line);
                    assert(s2[j].start == line);
                }
            },
            IrM::Bin(_, res, d1, d2) => {
                let i1 = lt_check_end(s, d1, line);
                lemma_check_end_len(s, d1, line);
                lemma_check_end_len(i1, d2, line);
                if j < s.len() {
                    lemma_check_end_start_idx(s, d1, line, j);
                    lemma_check_end_start_idx(i1, d2, line, j);
                    assert(s2[j] == lt_check_end(i1, d2, line)[j]);
                } else {
                    assert(s2[j].start == line);
                }
            },
            IrM::Assign(res, d) => {
                lemma_check_end_len(s, d, line);
                if j < s.len() {
                    lemma_check_end_start_idx(s, d, line, j);
                    assert(s2[j] == lt_check_end(s, d, line)[j]);
                } else {
                    assert(s2[j].start == line);
                }
            },
        }
    }
}

proof fn lemma_check_end_len(s: Seq<LtM>, d: DataM, line: int)
    ensures
        lt_check_end(s, d, line).len() == s.len(),
{
}

proof fn lemma_check_ends_len(s: Seq<LtM>, ds: Seq<DataM>, line: int)
    ensures
        lt_check_ends(s, ds, line).len() == s.len(),
    decreases ds,
{
    if ds.len() > 0 {
        lemma_check_ends_len(s, ds.drop_last(), line);
        lemma_check_end_len(lt_check_ends(s, ds.drop_last(), line), ds.last(), line);
    }
}

proof fn lemma_check_end_start_idx(s: Seq<LtM>, d: DataM, line: int, j: int)
    requires
        0 <= j < s.len(),
    ensures
        lt_check_end(s, d, line).len() == s.len(),
        lt_check_end(s, d, line)[j].start == s[j].start,
{
}

proof fn lemma_check_ends_starts(s: Seq<LtM>, ds: Seq<DataM>, line: int, j: int)
    requires
        0 <= j < s.len(),
    ensures
        lt_check_ends(s, ds, line).len() == s.len(),
        lt_check_ends(s, ds, line)[j].start == s[j].start,
    decreases ds,
{
    if ds.len() > 0 {
        lemma_check_ends_starts(s, ds.drop_last(), line, j);
    }
}

/// A parameter has an interval from the start.
proof fn lemma_init_has(params: Seq<Seq<char>>, v: Seq<char>)
    requires
        params.contains(v),
    ensures
        lt_has(lt_init(params), v),
{
    let j = choose|j: int| 0 <= j < params.len() && params[j] == v;
    assert(lt_init(params)[j].name == v);
}

/// Intervals survive the rest of the pass.
proof fn lemma_fold_has(s0: Seq<LtM>, instrs: Seq<IrM>, v: Seq<char>)
    requires
        lt_has(s0, v),
    ensures
        lt_has(lt_fold(s0, instrs), v),
    decreases instrs,
{
    if instrs.len() > 0 {
        lemma_fold_has(s0, instrs.drop_last(), v);
        lemma_step_props(lt_fold(s0, instrs.drop_last()), instrs.last(), instrs.len() - 1, v);
    }
}

/// A definition anywhere in the sequence leaves an interval behind.
proof fn lemma_fold_def_has(s0: Seq<LtM>, instrs: Seq<IrM>, l2: int, v: Seq<char>)
    requires
        0 <= l2 < instrs.len(),
        def_of(instrs[l2]) == Some(v),
    ensures
        lt_has(lt_fold(s0, instrs), v),
    decreases instrs,
{
    if l2 == instrs.len() - 1 {
        lemma_step_props(lt_fold(s0, instrs.drop_last()), instrs.last(), instrs.len() - 1, v);
    } else {
        assert(instrs.drop_last()[l2] == instrs[l2]);
        lemma_fold_def_has(s0, instrs.drop_last(), l2, v);
        lemma_step_props(lt_fold(s0, instrs.drop_last()), instrs.last(), instrs.len() - 1, v);
    }
}

proof fn lemma_fold_starts(params: Seq<Seq<char>>, instrs: Seq<IrM>)
    ensures
        starts_le(lt_fold(lt_init(params), instrs), instrs.len() as int),
    decreases instrs,
{
    if instrs.len() == 0 {
        assert forall|j: int|
            0 <= j < lt_init(params).len() implies (#[trigger] lt_init(params)[j]).start <= 0 by {}
    } else {
        lemma_fold_starts(params, instrs.drop_last());
        assert(starts_le(lt_fold(lt_init(params), instrs.drop_last()), instrs.len() as int)) by {
            assert forall|j: int|
                0 <= j < lt_fold(lt_init(params), instrs.drop_last()).len() implies (
            #[trigger] lt_fold(lt_init(params), instrs.drop_last())[j]).start <= instrs.len() as int by {}
        }
        lemma_step_starts(
            lt_fold(lt_init(params), instrs.drop_last()),
            instrs.last(),
            instrs.len() - 1,
            instrs.len() as int,
        );
    }
}

/// Every parameter keeps its interval through the whole pass.
pub proof fn lemma_checker_has_params(instrs: Seq<IrM>, params: Seq<Seq<char>>)
    ensures
        forall|i: int|
            0 <= i < params.len() ==> lt_has(lt_checker(instrs, params), #[trigger] params[i]),
{
    assert forall|i: int|
        0 <= i < params.len() implies lt_has(lt_checker(instrs, params), #[trigger] params[i]) by {
        lemma_init_has(params, params[i]);
        lemma_fold_has(lt_init(params), instrs, params[i]);
    }
}

/// Liveness soundness: on a sequence whose reads all follow a definition
/// (or refer to a parameter), every read of `v` at line `L` satisfies
/// `start(v) <= L <= end(v)` in the computed intervals.
pub proof fn lemma_liveness_sound(instrs: Seq<IrM>, params: Seq<Seq<char>>)
    requires
        defs_before_uses(instrs, params),
    ensures
        forall|l: int, k: int|
            0 <= l < instrs.len() && 0 <= k < reads_of(instrs[l]).len() ==> {
                let v = #[trigger] reads_of(instrs[l])[k];
                let lt = lt_checker(instrs, params);
                lt_has(lt, v) && lt_first(lt, v).start <= l && l <= lt_first(lt, v).end
            },
    decreases instrs,
{
    if instrs.len() == 0 {
        return ;
    }
    let pre = instrs.drop_last();
    let line = instrs.len() - 1;
    let inst = instrs.last();
    let s1 = lt_fold(lt_init(params), pre);
    let s2 = lt_fold(lt_init(params), instrs);
    assert(s2 == lt_step(s1, inst, line));
    assert(defs_before_uses(pre, params)) by {
        assert forall|l: int, k: int|
            0 <= l < pre.len() && 0 <= k < reads_of(pre[l]).len() implies params.contains(
            #[trigger] reads_of(pre[l])[k],
        ) || exists|l2: int| 0 <= l2 <= l && def_of(pre[l2]) == Some(reads_of(pre[l])[k]) by {
            assert(pre[l] == instrs[l]);
            if !params.contains(reads_of(instrs[l])[k]) {
                let l2 = choose|l2: int|
                    0 <= l2 <= l && def_of(instrs[l2]) == Some(reads_of(instrs[l])[k]);
                assert(pre[l2] == instrs[l2]);
            }
        }
    }
    lemma_liveness_sound(pre, params);
    lemma_fold_starts(params, pre);
    assert forall|l: int, k: int|
        0 <= l < instrs.len() && 0 <= k < reads_of(instrs[l]).len() implies {
        let v = #[trigger] reads_of(instrs[l])[k];
        lt_has(s2, v) && lt_first(s2, v).start <= l && l <= lt_first(s2, v).end
    } by {
        let v = reads_of(instrs[l])[k];
        if l < line {
            assert(pre[l] == instrs[l]);
            assert(lt_has(s1, v) && lt_first(s1, v).start <= l && l <= lt_first(s1, v).end);
            lemma_step_props(s1, inst, line, v);
        } else {
            // the read happens on the step's own line
            assert(reads_of(inst).contains(v));
            if lt_has(s1, v) {
                lemma_step_props(s1, inst, line, v);
                lemma_lt_first_elem(s1, v);
                assert(lt_first(s1, v).start <= line);
                assert(lt_first(s2, v).end == line);
            } else {
                if params.contains(v) {
                    lemma_init_has(params, v);
                    lemma_fold_has(lt_init(params), pre, v);
                    assert(false);
                } else {
                    let l2 = choose|l2: int|
                        0 <= l2 <= l && def_of(instrs[l2]) == Some(v);
                    if l2 < line {
                        assert(pre[l2] == instrs[l2]);
                        lemma_fold_def_has(lt_init(params), pre, l2, v);
                        assert(false);
                    } else {
                        lemma_step_props(s1, inst, line, v);
                        assert(lt_first(s2, v) == LtM { name: v, start: line, end: line });
                    }
                }
            }
        }
    }
}

/// Runs the liveness pass over a function's instructions and parameters.
pub fn get_checker(instructions: &Vec<IrInstruction>, parameters: &parser::Parameters) -> (r:
    LifetimeChecker)
    requires
        instructions@.len() <= i64::MAX,
    ensures
        r@ == lt_checker(irs_m(instructions@), str_views(parameters@)),
{
    let mut checker = LifetimeChecker::new();
    let np = parameters.len();
    let mut i: usize = 0;
    while i < np
        invariant
            i <= np,
            np == parameters@.len(),
            checker@ == lt_init(str_views(parameters@.take(i as int))),
        decreases np - i,
    {
        checker.set_start_lifetime(parameters[i].clone(), 0);
        proof {
            assert(checker@ =~= lt_init(str_views(parameters@.take(i + 1))));
        }
        i += 1;
    }
    proof {
        assert(str_views(parameters@.take(np as int)) =~= str_views(parameters@));
        assert(checker@ =~= lt_init(str_views(parameters@)));
    }
    let n = instructions.len();
    let mut line: usize = 0;
    while line < n
        invariant
            line <= n,
            n == instructions@.len(),
            n <= i64::MAX,
            checker@ == lt_fold(lt_init(str_views(parameters@)), irs_m(
                instructions@.take(line as int),
            )),
        decreases n - line,
    {
        let ghost pre = irs_m(instructions@.take(line as int));
        let l64 = line as i64;
        match &instructions[line] {
            IrInstruction::Jump(_) => (),
            IrInstruction::JumpFalse(d, _) => {
                check_end_lifetime(d, l64, &mut checker);
            },
            IrInstruction::Label(_) => (),
            IrInstruction::FunctionCall(res_var, _, args) => {
                let ghost s0 = checker@;
                let k = args.len();
                let mut j: usize = 0;
                while j < k
                    invariant
                        j <= k,
                        k == args@.len(),
                        checker@ == lt_check_ends(s0, datas_m(args@.take(j as int)), l64 as int),
                    decreases k - j,
                {
                    let ghost da = datas_m(args@.take(j as int));
                    check_end_lifetime(&args[j], l64, &mut checker);
                    proof {
                        assert(args@.take(j + 1) =~= args@.take(j as int).push(
                            args@[j as int],
                        ));
                        assert(datas_m(args@.take(j + 1)).drop_last() =~= da);
                        assert(datas_m(args@.take(j + 1)).last() == data_m(args@[j as int]));
                    }
                    j += 1;
                }
                proof {
                    assert(datas_m(args@.take(k as int)) =~= datas_m(args@));
                }
                checker.set_start_lifetime(res_var.clone(), l64);
            },
            IrInstruction::BinaryOperation(_, res_var, d1, d2) => {
                check_end_lifetime(d1, l64, &mut checker);
                check_end_lifetime(d2, l64, &mut checker);
                checker.set_start_lifetime(res_var.clone(), l64);
            },
            IrInstruction::Assignment(res_var, d) => {
                check_end_lifetime(d, l64, &mut checker);
                checker.set_start_lifetime(res_var.clone(), l64);
            },
            IrInstruction::Return(d) => {
                check_end_lifetime(d, l64, &mut checker);
            },
            IrInstruction::KeepAlive(v) => {
                checker.set_end_lifetime(v.clone(), l64);
            },
        }
        proof {
            assert(instructions@.take(line + 1) =~= instructions@.take(line as int).push(
                instructions@[line as int],
            ));
            assert(irs_m(instructions@.take(line + 1)).drop_last() =~= pre);
            assert(irs_m(instructions@.take(line + 1)).last() == crate::ir::ir_m(
                instructions@[line as int],
            ));
            assert(checker@ == lt_step(
                lt_fold(lt_init(str_views(parameters@)), pre),
                crate::ir::ir_m(instructions@[line as int]),
                line as int,
            ));
        }
        line += 1;
    }
    proof {
        assert(irs_m(instructions@.take(n as int)) =~= irs_m(instructions@));
    }
    checker
}

} // verus!
