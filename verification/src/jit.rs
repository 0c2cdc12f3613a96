//! Function tracking and on-demand compilation bookkeeping.
//!
//! The tracker owns the converted program and assigns every function a
//! stable numeric id: internal functions get their declaration index,
//! external functions get `-1`, `-2`, … together with their host address.
//! Generated code resolves callees at run time through a resolver that
//! looks ids up here; the embedder records each compiled function's entry
//! address once, and lookups return that same address ever after
//! (`lemma_address_stable`).
//!
//! The name-to-id map is kept in a bidirectional map from the `bimap`
//! crate, reached through trusted wrappers whose contracts state what its
//! `insert` and lookups do to the recorded pairs.

use vstd::prelude::*;
use crate::ssa::SsaProgram;
use crate::names::str_eq;

verus! {

/// The pairs a bidirectional map holds, as a map from left values to
/// right values.  `bimap` keeps the pairing bijective: `insert` removes
/// any pair sharing either side.
pub uninterp spec fn bimap_pairs(
    m: bimap::BiHashMap<
        String,
        i64,
        std::collections::hash_map::RandomState,
        std::collections::hash_map::RandomState,
    >,
) -> Map<Seq<char>, int>;

#[verifier::external_type_specification]
#[verifier::external_body]
#[verifier::reject_recursive_types(L)]
#[verifier::reject_recursive_types(R)]
#[verifier::reject_recursive_types(LS)]
#[verifier::reject_recursive_types(RS)]
pub struct ExBiHashMap<L, R, LS, RS>(bimap::BiHashMap<L, R, LS, RS>);

/// The bidirectional name-to-id map.
pub type NameIdMap = bimap::BiHashMap<String, i64>;

/// A pairing that holds nothing.
pub open spec fn no_pairs() -> Map<Seq<char>, int> {
    Map::empty()
}

/// Relies on `BiHashMap::new`: the fresh map holds no pairs.
#[verifier::external_body]
fn bm_new() -> (r: NameIdMap)
    ensures
        bimap_pairs(r) == no_pairs(),
{
    bimap::BiHashMap::new()
}

/// Relies on `BiHashMap::insert`: it removes the pair with this left
/// value and the pair with this right value, then records the new pair.
#[verifier::external_body]
fn bm_insert(m: &mut NameIdMap, left: String, right: i64)
    ensures
        bimap_pairs(*final(m)) == bimap_pairs(*old(m)).remove_keys(
            Set::new(
                |k: Seq<char>|
                    bimap_pairs(*old(m)).dom().contains(k) && bimap_pairs(*old(m))[k]
                        == right as int,
            ),
        ).insert(left@, right as int),
{
    m.insert(left, right);
}

/// Relies on `BiHashMap::get_by_left`: the right value recorded for this
/// left value, if any.
#[verifier::external_body]
fn bm_get_by_left(m: &NameIdMap, left: &String) -> (r: Option<i64>)
    ensures
        match r {
            Some(v) => bimap_pairs(*m).dom().contains(left@) && bimap_pairs(*m)[left@]
                == v as int,
            None => !bimap_pairs(*m).dom().contains(left@),
        },
{
    m.get_by_left(left).copied()
}

/// Relies on `BiHashMap::get_by_right`: the left value recorded for this
/// right value, if any.
#[verifier::external_body]
fn bm_get_by_right(m: &NameIdMap, right: i64) -> (r: Option<String>)
    ensures
        match r {
            Some(l) => bimap_pairs(*m).dom().contains(l@) && bimap_pairs(*m)[l@] == right as int,
            None => forall|k: Seq<char>|
                bimap_pairs(*m).dom().contains(k) ==> bimap_pairs(*m)[k] != right as int,
        },
{
    m.get_by_right(&right).cloned()
}

// ------------------------------------------------------------------

pub type FunctionAddress = u64;

pub type FunctionId = i64;

#[derive(Debug, PartialEq, Eq, Structural)]
pub enum JitError {
    InvalidNumberOfArguments(u64, u64),
    TooManyArguments,
}

/// A handle on the compiled entry function: its id and its declared
/// parameter count.
pub struct MainFunction {
    pub function_id: FunctionId,
    pub num_args: u64,
}

impl MainFunction {
    /// Rejects an invocation with the wrong number of arguments before
    /// any generated code could run: exactly the declared count is
    /// accepted, and at most five arguments can be marshalled at all.
    pub fn check_arguments(&self, found: u64) -> (r: Result<(), JitError>)
        ensures
            r is Ok <==> (found == self.num_args && found <= 5),
            found != self.num_args <==> r == Result::<(), JitError>::Err(
                JitError::InvalidNumberOfArguments(self.num_args, found),
            ),
            (found == self.num_args && found > 5) <==> r == Result::<(), JitError>::Err(
                JitError::TooManyArguments,
            ),
    {
        if found != self.num_args {
            return Err(JitError::InvalidNumberOfArguments(self.num_args, found));
        }
        if found > 5 {
            return Err(JitError::TooManyArguments);
        }
        Ok(())
    }
}

/// An association list with integer keys.
pub open spec fn id_map(s: Seq<(i64, u64)>) -> Map<int, u64>
    decreases s,
{
    if s.len() == 0 {
        Map::empty()
    } else {
        id_map(s.drop_last()).insert(s.last().0 as int, s.last().1)
    }
}

proof fn lemma_id_map_found(s: Seq<(i64, u64)>, i: int)
    requires
        0 <= i < s.len(),
        forall|j: int| i < j < s.len() ==> (#[trigger] s[j]).0 != s[i].0,
    ensures
        id_map(s).dom().contains(s[i].0 as int),
        id_map(s)[s[i].0 as int] == s[i].1,
    decreases s.len(),
{
    if i == s.len() - 1 {
    } else {
        assert(forall|j: int|
            i < j < s.drop_last().len() ==> (#[trigger] s.drop_last()[j]).0 != s.drop_last()[i].0);
        lemma_id_map_found(s.drop_last(), i);
    }
}

proof fn lemma_id_map_absent(s: Seq<(i64, u64)>, k: int)
    requires
        forall|j: int| 0 <= j < s.len() ==> (#[trigger] s[j]).0 != k,
    ensures
        !id_map(s).dom().contains(k),
    decreases s.len(),
{
    if s.len() > 0 {
        lemma_id_map_absent(s.drop_last(), k);
    }
}

proof fn lemma_id_map_push(s: Seq<(i64, u64)>, p: (i64, u64))
    ensures
        id_map(s.push(p)) == id_map(s).insert(p.0 as int, p.1),
{
    assert(s.push(p).drop_last() =~= s);
    assert(s.push(p).last() == p);
}

/// The name the tracker registered for `id`, when one exists.
pub open spec fn resolves_to(t: FunctionTracker, id: i64, l: Seq<char>) -> bool {
    t.name_map().dom().contains(l) && t.name_map()[l] == id as int
}

/// Position `i` holds the first function named `l`.
pub open spec fn first_fun_named(fs: Seq<crate::ssa::SsaFunction>, l: Seq<char>, i: int) -> bool {
    &&& 0 <= i < fs.len()
    &&& fs[i].name@ == l
    &&& forall|j: int| 0 <= j < i ==> (#[trigger] fs[j]).name@ != l
}

/// What compiling one function yields: its body lowered and emitted when
/// the liveness and callee checks pass, the appropriate report otherwise.
pub open spec fn spec_compile_fun(
    f: crate::ssa::SsaFunction,
    names: Map<Seq<char>, int>,
    tracker_address: i64,
    resolver_address: u64,
) -> Result<Seq<crate::emitter::AsmInst>, crate::emitter::EmitError> {
    let ir = crate::ir::t_block(crate::ssa::ssa_block_m(f.block@), 0, 0).0;
    let params = crate::parser::str_views(f.parameters@);
    if !crate::emitter::spec_validate(ir, params, names) {
        Err(crate::emitter::EmitError::Unresolved)
    } else if crate::emitter::has_div_mod(ir) {
        Err(crate::emitter::EmitError::NotImplemented)
    } else {
        Ok(crate::emitter::spec_generate(ir, params, names, tracker_address, resolver_address))
    }
}

/// The executable result matches the specified one.
pub open spec fn compare_compiled(
    r: Result<Vec<crate::emitter::AsmInst>, crate::emitter::EmitError>,
    s: Result<Seq<crate::emitter::AsmInst>, crate::emitter::EmitError>,
) -> bool {
    match (r, s) {
        (Ok(ops), Ok(specops)) => ops@ == specops,
        (Err(e1), Err(e2)) => e1 == e2,
        _ => false,
    }
}

/// Owns the converted program, the name-to-id pairing, the external
/// addresses and the entry addresses of the functions compiled so far.
pub struct FunctionTracker {
    pub name_id_mapping: NameIdMap,
    pub id_external_fun_mapping: Vec<(i64, u64)>,
    pub id_memory_mapping: Vec<(i64, u64)>,
    pub program: SsaProgram,
}

impl FunctionTracker {
    /// The recorded name-to-id pairs.
    pub closed spec fn name_map(&self) -> Map<Seq<char>, int> {
        bimap_pairs(self.name_id_mapping)
    }

    /// The host addresses of the external functions, by id.
    pub closed spec fn ext_map(&self) -> Map<int, u64> {
        id_map(self.id_external_fun_mapping@)
    }

    /// The entry addresses of the compiled functions, by id.
    pub closed spec fn compiled_map(&self) -> Map<int, u64> {
        id_map(self.id_memory_mapping@)
    }

    /// What a lookup of `id` returns: the external address for a negative
    /// id, the recorded entry address for a compiled internal one.
    pub open spec fn spec_address(&self, id: i64) -> Option<u64> {
        if id < 0 {
            if self.ext_map().dom().contains(id as int) {
                Some(self.ext_map()[id as int])
            } else {
                None
            }
        } else {
            if self.compiled_map().dom().contains(id as int) {
                Some(self.compiled_map()[id as int])
            } else {
                None
            }
        }
    }

    /// Registers every function of the program: internal ones get their
    /// index, external ones get `-1`, `-2`, … with their host address.
    pub fn new(program: SsaProgram) -> (r: Self)
        requires
            program.functions@.len() <= i64::MAX,
            program.external_functions@.len() <= i64::MAX,
        ensures
            r.program == program,
            r.compiled_map() == Map::<int, u64>::empty(),
            forall|i: int|
                0 <= i < program.external_functions@.len()
                    ==> #[trigger] r.ext_map().dom().contains(-i - 1) && r.ext_map()[-i - 1]
                    == program.external_functions@[i].address,
            forall|i: int|
                0 <= i < program.functions@.len() && (forall|j: int|
                    0 <= j < program.functions@.len() && j != i
                        ==> (#[trigger] program.functions@[j]).name@ != program.functions@[i].name@)
                    && (forall|j: int|
                    0 <= j < program.external_functions@.len()
                        ==> (#[trigger] program.external_functions@[j]).name@
                        != program.functions@[i].name@) ==> #[trigger] r.name_map().dom().contains(
                    program.functions@[i].name@,
                ) && r.name_map()[program.functions@[i].name@] == i,
            forall|j: int|
                0 <= j < program.external_functions@.len() && (forall|k: int|
                    0 <= k < program.functions@.len() ==> (#[trigger] program.functions@[k]).name@
                        != program.external_functions@[j].name@) && (forall|k: int|
                    0 <= k < program.external_functions@.len() && k != j
                        ==> (#[trigger] program.external_functions@[k]).name@
                        != program.external_functions@[j].name@)
                    ==> #[trigger] r.name_map().dom().contains(
                    program.external_functions@[j].name@,
                ) && r.name_map()[program.external_functions@[j].name@] == -j - 1,
    {
        let mut name_id_mapping = bm_new();
        let n = program.functions.len();
        let mut idx: usize = 0;
        while idx < n
            invariant
                idx <= n,
                n == program.functions@.len(),
                n <= i64::MAX,
                forall|i: int|
                    0 <= i < idx ==> (forall|j: int|
                        0 <= j < program.functions@.len() && j != i
                            ==> (#[trigger] program.functions@[j]).name@
                            != program.functions@[i].name@)
                        ==> #[trigger] bimap_pairs(name_id_mapping).dom().contains(
                        program.functions@[i].name@,
                    ) && bimap_pairs(name_id_mapping)[program.functions@[i].name@] == i,
                forall|k: Seq<char>|
                    #[trigger] bimap_pairs(name_id_mapping).dom().contains(k) ==> exists|i: int|
                        0 <= i < idx && (#[trigger] program.functions@[i]).name@ == k,
            decreases n - idx,
        {
            let name = program.functions[idx].name.clone();
            let ghost pre = bimap_pairs(name_id_mapping);
            bm_insert(&mut name_id_mapping, name, idx as i64);
            proof {
                assert forall|i: int|
                    0 <= i < idx + 1 implies ((forall|j: int|
                    0 <= j < program.functions@.len() && j != i
                        ==> (#[trigger] program.functions@[j]).name@
                        != program.functions@[i].name@)
                    ==> #[trigger] bimap_pairs(name_id_mapping).dom().contains(
                    program.functions@[i].name@,
                ) && bimap_pairs(name_id_mapping)[program.functions@[i].name@] == i) by {
                    if i < idx {
                        if (forall|j: int|
                            0 <= j < program.functions@.len() && j != i
                                ==> (#[trigger] program.functions@[j]).name@
                                != program.functions@[i].name@) {
                            assert(pre.dom().contains(program.functions@[i].name@));
                            assert(program.functions@[idx as int].name@
                                != program.functions@[i].name@);
                        }
                    }
                }
                assert forall|k: Seq<char>|
                    #[trigger] bimap_pairs(name_id_mapping).dom().contains(k) implies exists|
                    i: int,
                |
                    0 <= i < idx + 1 && (#[trigger] program.functions@[i]).name@ == k by {
                    if k != program.functions@[idx as int].name@ {
                        assert(pre.dom().contains(k));
                    }
                }
            }
            idx += 1;
        }
        let mut id_external_fun_mapping: Vec<(i64, u64)> = Vec::new();
        let ne = program.external_functions.len();
        let mut e: usize = 0;
        while e < ne
            invariant
                e <= ne,
                ne == program.external_functions@.len(),
                ne <= i64::MAX,
                id_external_fun_mapping@.len() == e,
                forall|i: int|
                    0 <= i < e ==> (#[trigger] id_external_fun_mapping@[i]).0 == -i - 1
                        && id_external_fun_mapping@[i].1 == program.external_functions@[i].address,
                forall|i: int|
                    0 <= i < program.functions@.len() && (forall|j: int|
                        0 <= j < program.functions@.len() && j != i
                            ==> (#[trigger] program.functions@[j]).name@
                            != program.functions@[i].name@) && (forall|j: int|
                        0 <= j < program.external_functions@.len()
                            ==> (#[trigger] program.external_functions@[j]).name@
                            != program.functions@[i].name@)
                        ==> #[trigger] bimap_pairs(name_id_mapping).dom().contains(
                        program.functions@[i].name@,
                    ) && bimap_pairs(name_id_mapping)[program.functions@[i].name@] == i,
                forall|j: int|
                    0 <= j < e && (forall|k: int|
                        0 <= k < program.functions@.len()
                            ==> (#[trigger] program.functions@[k]).name@
                            != program.external_functions@[j].name@) && (forall|k: int|
                        0 <= k < program.external_functions@.len() && k != j
                            ==> (#[trigger] program.external_functions@[k]).name@
                            != program.external_functions@[j].name@)
                        ==> #[trigger] bimap_pairs(name_id_mapping).dom().contains(
                        program.external_functions@[j].name@,
                    ) && bimap_pairs(name_id_mapping)[program.external_functions@[j].name@] == -j
                        - 1,
            decreases ne - e,
        {
            let name = program.external_functions[e].name.clone();
            let id: i64 = -(e as i64) - 1;
            let ghost pre = bimap_pairs(name_id_mapping);
            bm_insert(&mut name_id_mapping, name, id);
            proof {
                assert forall|j: int|
                    0 <= j < e + 1 && (forall|k: int|
                        0 <= k < program.functions@.len()
                            ==> (#[trigger] program.functions@[k]).name@
                            != program.external_functions@[j].name@) && (forall|k: int|
                        0 <= k < program.external_functions@.len() && k != j
                            ==> (#[trigger] program.external_functions@[k]).name@
                            != program.external_functions@[j].name@)
                        implies #[trigger] bimap_pairs(name_id_mapping).dom().contains(
                    program.external_functions@[j].name@,
                ) && bimap_pairs(name_id_mapping)[program.external_functions@[j].name@] == -j
                    - 1 by {
                    if j < e {
                        assert(pre.dom().contains(program.external_functions@[j].name@));
                        assert(pre[program.external_functions@[j].name@] == -j - 1);
                        assert(program.external_functions@[e as int].name@
                            != program.external_functions@[j].name@);
                        assert(-j - 1 != -(e as int) - 1);
                    }
                }
                assert forall|i: int|
                    0 <= i < program.functions@.len() && (forall|j: int|
                        0 <= j < program.functions@.len() && j != i
                            ==> (#[trigger] program.functions@[j]).name@
                            != program.functions@[i].name@) && (forall|j: int|
                        0 <= j < program.external_functions@.len()
                            ==> (#[trigger] program.external_functions@[j]).name@
                            != program.functions@[i].name@) implies #[trigger] bimap_pairs(
                    name_id_mapping,
                ).dom().contains(program.functions@[i].name@) && bimap_pairs(
                    name_id_mapping,
                )[program.functions@[i].name@] == i by {
                    assert(pre.dom().contains(program.functions@[i].name@));
                    assert(pre[program.functions@[i].name@] == i);
                    assert(program.external_functions@[e as int].name@
                        != program.functions@[i].name@);
                }
            }
            id_external_fun_mapping.push((id, program.external_functions[e].address));
            e += 1;
        }
        proof {
            assert forall|i: int|
                0 <= i < program.external_functions@.len() implies #[trigger] id_map(
                id_external_fun_mapping@,
            ).dom().contains(-i - 1) && id_map(id_external_fun_mapping@)[-i - 1]
                == program.external_functions@[i].address by {
                assert(forall|j: int|
                    i < j < id_external_fun_mapping@.len()
                        ==> (#[trigger] id_external_fun_mapping@[j]).0
                        != id_external_fun_mapping@[i].0);
                lemma_id_map_found(id_external_fun_mapping@, i);
            }
        }
        FunctionTracker {
            name_id_mapping,
            id_external_fun_mapping,
            id_memory_mapping: Vec::new(),
            program,
        }
    }

    /// The id registered for `name`, which must be a known function.
    pub fn get_id(&self, name: &String) -> (r: FunctionId)
        requires
            self.name_map().dom().contains(name@),
        ensures
            r as int == self.name_map()[name@],
    {
        match bm_get_by_left(&self.name_id_mapping, name) {
            Some(counter) => counter,
            None => {
                proof {
                    assert(false);
                }
                0
            },
        }
    }

    /// The handle on `main`: its id and its parameter count.
    pub fn get_main_function(&self, main_index: usize) -> (r: MainFunction)
        requires
            self.name_map().dom().contains("main"@),
            main_index < self.program.functions@.len(),
            self.program.functions@[main_index as int].name@ == "main"@,
            self.program.functions@[main_index as int].parameters@.len() <= u64::MAX,
        ensures
            r.function_id as int == self.name_map()["main"@],
            r.num_args as int == self.program.functions@[main_index as int].parameters@.len(),
    {
        let main_name = String::from_str("main");
        let id = self.get_id(&main_name);
        let num_args = self.program.functions[main_index].parameters.len() as u64;
        MainFunction { function_id: id, num_args }
    }

    /// Finds the declaration index of the internal function named `name`.
    pub fn find_function(&self, name: &str) -> (r: Option<usize>)
        ensures
            match r {
                Some(i) => first_fun_named(self.program.functions@, name@, i as int),
                None => forall|i: int|
                    0 <= i < self.program.functions@.len()
                        ==> (#[trigger] self.program.functions@[i]).name@ != name@,
            },
    {
        let n = self.program.functions.len();
        let mut i: usize = 0;
        while i < n
            invariant
                i <= n,
                n == self.program.functions@.len(),
                forall|k: int|
                    0 <= k < i ==> (#[trigger] self.program.functions@[k]).name@ != name@,
            decreases n - i,
        {
            if str_eq(self.program.functions[i].name.as_str(), name) {
                proof {
                    assert(self.program.functions@[i as int].name@ == name@);
                }
                return Some(i);
            }
            i += 1;
        }
        None
    }

    /// The address a resolver lookup returns right now: the host address
    /// of an external function, or the recorded entry address of an
    /// already compiled one.  `None` asks the embedder to compile the
    /// function and record its address.
    pub fn get_function_address(&self, id: FunctionId) -> (r: Option<FunctionAddress>)
        ensures
            r == self.spec_address(id),
    {
        if id >= 0 {
            match self.lookup(&self.id_memory_mapping, id) {
                Some(addr) => Some(addr),
                None => None,
            }
        } else {
            match self.lookup(&self.id_external_fun_mapping, id) {
                Some(addr) => Some(addr),
                None => None,
            }
        }
    }

    /// Looks `id` up in an association list, later entries first.
    fn lookup(&self, s: &Vec<(i64, u64)>, id: i64) -> (r: Option<u64>)
        ensures
            match r {
                Some(v) => id_map(s@).dom().contains(id as int) && id_map(s@)[id as int] == v,
                None => !id_map(s@).dom().contains(id as int),
            },
    {
        let n = s.len();
        let mut i = n;
        while i > 0
            invariant
                i <= n,
                n == s@.len(),
                forall|j: int| i <= j < n ==> (#[trigger] s@[j]).0 != id,
            decreases i,
        {
            i -= 1;
            if s[i].0 == id {
                proof {
                    lemma_id_map_found(s@, i as int);
                }
                return Some(s[i].1);
            }
        }
        proof {
            lemma_id_map_absent(s@, id as int);
        }
        None
    }

    /// Whether a function of this name is registered.
    pub fn knows_function(&self, name: &String) -> (r: bool)
        ensures
            r == self.name_map().dom().contains(name@),
    {
        match bm_get_by_left(&self.name_id_mapping, name) {
            Some(_) => true,
            None => false,
        }
    }

    /// Lowers and emits the internal function with this id: its body is
    /// flattened to three-address code, analysed for liveness, register
    /// allocated and emitted — the result is exactly `spec_compile_fun`
    /// of the first function carrying the id's registered name.  The
    /// caller passes the run-time addresses the generated call sites bake
    /// in: the tracker's own and the resolver's.  An id that names no
    /// known internal function, or a body that slipped past the static
    /// checks, is reported as `Unresolved`; division and modulo are
    /// reported as `NotImplemented`.
    pub fn compile_function(
        &self,
        id: FunctionId,
        tracker_address: i64,
        resolver_address: u64,
    ) -> (r: Result<Vec<crate::emitter::AsmInst>, crate::emitter::EmitError>)
        ensures
            r matches Ok(ops) ==> {
                &&& ops@.len() > 9
                &&& ops@.take(9) == crate::emitter::prologue_ops()
                &&& crate::emitter::rets_restore(ops@)
                &&& ops@.last() == crate::emitter::AsmInst::Ret
            },
            r is Ok || r == Err::<Vec<crate::emitter::AsmInst>, crate::emitter::EmitError>(
                crate::emitter::EmitError::Unresolved,
            ) || r == Err::<Vec<crate::emitter::AsmInst>, crate::emitter::EmitError>(
                crate::emitter::EmitError::NotImplemented,
            ),
            (forall|l: Seq<char>|
                self.name_map().dom().contains(l) ==> self.name_map()[l] != id as int) ==> r
                == Err::<Vec<crate::emitter::AsmInst>, crate::emitter::EmitError>(
                crate::emitter::EmitError::Unresolved,
            ),
            r == Err::<Vec<crate::emitter::AsmInst>, crate::emitter::EmitError>(
                crate::emitter::EmitError::Unresolved,
            ) || (exists|l: Seq<char>, i: int|
                resolves_to(*self, id, l) && #[trigger] first_fun_named(
                    self.program.functions@,
                    l,
                    i,
                ) && compare_compiled(
                    r,
                    spec_compile_fun(
                        self.program.functions@[i],
                        self.name_map(),
                        tracker_address,
                        resolver_address,
                    ),
                )),
            r == Err::<Vec<crate::emitter::AsmInst>, crate::emitter::EmitError>(
                crate::emitter::EmitError::Unresolved,
            ) ==> ((forall|l: Seq<char>|
                self.name_map().dom().contains(l) ==> self.name_map()[l] != id as int) || (exists|
                l: Seq<char>,
            |
                #[trigger] resolves_to(*self, id, l) && ((forall|i: int|
                    0 <= i < self.program.functions@.len()
                        ==> (#[trigger] self.program.functions@[i]).name@ != l) || (exists|i: int|
                    #[trigger] first_fun_named(self.program.functions@, l, i)
                        && spec_compile_fun(
                        self.program.functions@[i],
                        self.name_map(),
                        tracker_address,
                        resolver_address,
                    ) == Err::<Seq<crate::emitter::AsmInst>, crate::emitter::EmitError>(
                        crate::emitter::EmitError::Unresolved,
                    ))))),
    {
        let name = match bm_get_by_right(&self.name_id_mapping, id) {
            Some(n) => n,
            None => {
                return Err(crate::emitter::EmitError::Unresolved);
            },
        };
        let fi = match self.find_function(name.as_str()) {
            Some(i) => i,
            None => {
                proof {
                    assert(resolves_to(*self, id, name@));
                }
                return Err(crate::emitter::EmitError::Unresolved);
            },
        };
        let fun = &self.program.functions[fi];
        let ir = crate::ir::transform(fun);
        if !crate::emitter::validate_for_emission(&ir, &fun.parameters, self) {
            proof {
                assert(resolves_to(*self, id, name@));
                assert(spec_compile_fun(
                    self.program.functions@[fi as int],
                    self.name_map(),
                    tracker_address,
                    resolver_address,
                ) == Err::<Seq<crate::emitter::AsmInst>, crate::emitter::EmitError>(
                    crate::emitter::EmitError::Unresolved,
                ));
            }
            return Err(crate::emitter::EmitError::Unresolved);
        }
        let r = crate::emitter::generate(
            &ir,
            &fun.parameters,
            self,
            tracker_address,
            resolver_address,
        );
        proof {
            assert(resolves_to(*self, id, name@));
            if r is Err {
                assert(r->Err_0 == crate::emitter::EmitError::NotImplemented);
            }
            assert(compare_compiled(
                r,
                spec_compile_fun(
                    self.program.functions@[fi as int],
                    self.name_map(),
                    tracker_address,
                    resolver_address,
                ),
            ));
        }
        r
    }

    /// Records the entry address of a freshly compiled function.  Nothing
    /// is ever overwritten: addresses handed out stay valid.
    pub fn install_function(&mut self, id: FunctionId, address: FunctionAddress)
        requires
            id >= 0,
            old(self).spec_address(id) is None,
        ensures
            spec_install(*old(self), id, address, *final(self)),
    {
        self.id_memory_mapping.push((id, address));
        proof {
            lemma_id_map_push(old(self).id_memory_mapping@, (id, address));
        }
    }
}

/// How `install_function` changes the tracker: the one new address is
/// recorded and everything else stays as it was.
pub open spec fn spec_install(
    pre: FunctionTracker,
    id: i64,
    address: u64,
    post: FunctionTracker,
) -> bool {
    &&& post.name_map() == pre.name_map()
    &&& post.ext_map() == pre.ext_map()
    &&& post.program == pre.program
    &&& post.compiled_map() == pre.compiled_map().insert(id as int, address)
    &&& id >= 0
    &&& !pre.compiled_map().dom().contains(id as int)
}

/// Idempotence of compilation: once a lookup for a non-negative id
/// returns an address, recording further functions never changes what
/// that id resolves to — `get_function_address` keeps returning the same
/// address.
pub proof fn lemma_address_stable(
    pre: FunctionTracker,
    post: FunctionTracker,
    id2: i64,
    address2: u64,
    id: i64,
    a: u64,
)
    requires
        spec_install(pre, id2, address2, post),
        pre.spec_address(id) == Some(a),
    ensures
        post.spec_address(id) == Some(a),
{
    if id >= 0 {
        assert(pre.compiled_map().dom().contains(id as int));
        assert(post.compiled_map()[id as int] == (if id == id2 {
            address2
        } else {
            pre.compiled_map()[id as int]
        }));
        assert(id != id2);
    }
}

} // verus!
