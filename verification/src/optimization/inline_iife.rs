//! Inline immediately-invoked function expressions: `(() => { ... })()`
//! where the function has a single block ending in `return` and captures
//! nothing is replaced by its parameters' bindings, its body and a load of
//! the returned value.

use vstd::prelude::*;
use crate::hir::types::{
    BasicBlock, BlockId, HIR, HIRFunction, Instruction, InstructionValue, Param, Place, Terminal,
};
use crate::hir::shape::same_block_except_instructions;

verus! {

/// `f` defines a function expression that `c` calls right away, and the
/// function captures nothing and has a single block ending in `return`.
pub open spec fn is_iife(f: Instruction, c: Instruction) -> bool {
    &&& c.value matches InstructionValue::CallExpression { callee, .. } && callee.identifier.id == f.lvalue.identifier.id
    &&& f.value matches InstructionValue::FunctionExpression { lowered_func, .. } && {
        &&& lowered_func.context@.len() == 0
        &&& lowered_func.body.blocks@.len() == 1
        &&& lowered_func.body.blocks@[0].1.terminal is Return
    }
}

/// The bindings of the first `m` parameters to the arguments: for each
/// identifier parameter, an instruction with the function's id and location
/// that loads the argument into the parameter; spread parameters bind
/// nothing.
pub open spec fn bindings(params: Seq<Param>, args: Seq<Place>, m: int, f: Instruction) -> Seq<Instruction>
    decreases m,
{
    if m <= 0 {
        Seq::empty()
    } else {
        bindings(params, args, m - 1, f) + match params[m - 1] {
            Param::Identifier(p) => seq![Instruction { id: f.id, lvalue: p, value: InstructionValue::LoadLocal { place: args[m - 1] }, loc: f.loc }],
            Param::Spread(_) => Seq::empty(),
        }
    }
}

/// What the pair of function `f` and call `c` is replaced by: the
/// parameter bindings (as many as there are both parameters and
/// arguments), the function's body, and `c` turned into a load of the
/// returned value.
pub open spec fn expansion(f: Instruction, c: Instruction) -> Seq<Instruction> {
    match (f.value, c.value) {
        (InstructionValue::FunctionExpression { lowered_func, .. }, InstructionValue::CallExpression { args, .. }) => {
            let m = if lowered_func.params@.len() <= args@.len() { lowered_func.params@.len() } else { args@.len() };
            let entry = lowered_func.body.blocks@[0].1;
            match entry.terminal {
                Terminal::Return { value } => bindings(lowered_func.params@, args@, m as int, f) + entry.instructions@ + seq![
                    Instruction { value: InstructionValue::LoadLocal { place: value }, ..c },
                ],
                _ => Seq::empty(),
            }
        },
        _ => Seq::empty(),
    }
}

/// How many of the first `n` parameters are plain identifiers (not spreads).
pub open spec fn identifier_param_count(params: Seq<Param>, n: int) -> nat
    decreases n,
{
    if n <= 0 {
        0
    } else {
        identifier_param_count(params, n - 1) + if params[n - 1] is Identifier { 1nat } else { 0nat }
    }
}

proof fn lemma_identifier_param_count_monotone(params: Seq<Param>, i: int, n: int)
    requires
        0 <= i <= n,
    ensures
        identifier_param_count(params, i) <= identifier_param_count(params, n),
    decreases n - i,
{
    if i < n {
        lemma_identifier_param_count_monotone(params, i, n - 1);
    }
}

/// The binding of parameter `p` to argument `a`, with the id and location
/// of the function expression `f`.
pub open spec fn param_binding(f: Instruction, p: Place, a: Place) -> Instruction {
    Instruction { id: f.id, lvalue: p, value: InstructionValue::LoadLocal { place: a }, loc: f.loc }
}

/// The parameters of the function that `f` defines.
pub open spec fn iife_params(f: Instruction) -> Seq<Param> {
    f.value->FunctionExpression_lowered_func.params@
}

/// The arguments of the call `c`.
pub open spec fn iife_args(c: Instruction) -> Seq<Place> {
    c.value->CallExpression_args@
}

/// The single block of the function that `f` defines.
pub open spec fn iife_entry(f: Instruction) -> BasicBlock {
    f.value->FunctionExpression_lowered_func.body.blocks@[0].1
}

/// How many parameters a call binds: as many as there are both parameters
/// and arguments.
pub open spec fn bound_params(f: Instruction, c: Instruction) -> int {
    if iife_params(f).len() <= iife_args(c).len() {
        iife_params(f).len() as int
    } else {
        iife_args(c).len() as int
    }
}

proof fn lemma_bindings_bind_each_parameter(params: Seq<Param>, args: Seq<Place>, m: int, f: Instruction)
    requires
        0 <= m <= params.len(),
        m <= args.len(),
    ensures
        bindings(params, args, m, f).len() == identifier_param_count(params, m),
        forall|i: int|
            0 <= i < m && (#[trigger] params[i]) is Identifier ==> bindings(params, args, m, f)[identifier_param_count(
                params,
                i,
            ) as int] == param_binding(f, params[i]->Identifier_0, args[i]),
    decreases m,
{
    if m > 0 {
        lemma_bindings_bind_each_parameter(params, args, m - 1, f);
        assert forall|i: int|
            0 <= i < m && (#[trigger] params[i]) is Identifier implies bindings(params, args, m, f)[identifier_param_count(
            params,
            i,
        ) as int] == param_binding(f, params[i]->Identifier_0, args[i]) by {
            if i < m - 1 {
                lemma_identifier_param_count_monotone(params, i + 1, m - 1);
            }
        }
    }
}

/// Inlining binds every parameter to its argument: for a function `f`
/// called by `c`, each identifier parameter at a position below both the
/// number of parameters and the number of arguments gets exactly one
/// binding, a load of the argument at the same position (spread parameters
/// and surplus parameters or arguments get none), and the bindings come in
/// parameter order, before the function's body and the load of the returned
/// value.
pub proof fn lemma_expansion_binds_parameters(f: Instruction, c: Instruction)
    requires
        is_iife(f, c),
    ensures
        expansion(f, c).len() == identifier_param_count(iife_params(f), bound_params(f, c)) + iife_entry(
            f,
        ).instructions@.len() + 1,
        forall|i: int|
            0 <= i < iife_params(f).len() && i < iife_args(c).len() && (#[trigger] iife_params(f)[i]) is Identifier
                ==> expansion(f, c)[identifier_param_count(iife_params(f), i) as int] == param_binding(
                f,
                iife_params(f)[i]->Identifier_0,
                iife_args(c)[i],
            ),
        expansion(f, c).subrange(identifier_param_count(iife_params(f), bound_params(f, c)) as int, expansion(f, c).len() - 1)
            == iife_entry(f).instructions@,
        expansion(f, c).last().id == c.id,
        expansion(f, c).last().lvalue == c.lvalue,
        expansion(f, c).last().loc == c.loc,
        expansion(f, c).last().value == (InstructionValue::LoadLocal { place: iife_entry(f).terminal->Return_value }),
{
    let params = iife_params(f);
    let args = iife_args(c);
    let m = bound_params(f, c);
    let entry = iife_entry(f);
    lemma_bindings_bind_each_parameter(params, args, m, f);
    let b = bindings(params, args, m, f);
    let e = expansion(f, c);
    assert(e =~= b + entry.instructions@ + seq![
        Instruction { value: InstructionValue::LoadLocal { place: entry.terminal->Return_value }, ..c },
    ]);
    assert forall|i: int|
        0 <= i < params.len() && i < args.len() && (#[trigger] params[i]) is Identifier implies e[identifier_param_count(
        params,
        i,
    ) as int] == param_binding(f, params[i]->Identifier_0, args[i]) by {
        lemma_identifier_param_count_monotone(params, i + 1, m);
    }
    assert(e.subrange(b.len() as int, e.len() - 1) =~= entry.instructions@);
}

/// `n` is the instruction list `o` with every function-and-call pair that
/// is an IIFE replaced by its expansion.
pub open spec fn inlined(n: Seq<Instruction>, o: Seq<Instruction>) -> bool
    decreases o.len(),
{
    if o.len() == 0 {
        n.len() == 0
    } else if o.len() >= 2 && is_iife(o[o.len() - 2], o.last()) {
        let e = expansion(o[o.len() - 2], o.last());
        &&& n.len() >= e.len()
        &&& inlined(n.take(n.len() - e.len()), o.take(o.len() - 2))
        &&& n.skip(n.len() - e.len()) == e
    } else {
        &&& n.len() >= 1
        &&& inlined(n.drop_last(), o.drop_last())
        &&& n.last() == o.last()
    }
}

fn is_iife_site(f: &Instruction, c: &Instruction) -> (r: bool)
    ensures
        r == is_iife(*f, *c),
{
    let callee_matches = match &c.value {
        InstructionValue::CallExpression { callee, .. } => callee.identifier.id == f.lvalue.identifier.id,
        _ => false,
    };
    if !callee_matches {
        return false;
    }
    match &f.value {
        InstructionValue::FunctionExpression { lowered_func, .. } => {
            lowered_func.context.len() == 0 && lowered_func.body.blocks.len() == 1
                && matches!(lowered_func.body.blocks[0].1.terminal, Terminal::Return { .. })
        },
        _ => false,
    }
}

/// Append the expansion of the IIFE `f`, `c` to `out`.
fn expand(out: &mut Vec<Instruction>, f: Instruction, c: Instruction)
    requires
        is_iife(f, c),
    ensures
        final(out)@ == old(out)@ + expansion(f, c),
{
    let ghost gf = f;
    let ghost gc = c;
    let Instruction { id: fid, value: fvalue, loc: floc, .. } = f;
    let Instruction { id: cid, lvalue: clvalue, value: cvalue, loc: cloc } = c;
    if let InstructionValue::FunctionExpression { lowered_func, .. } = fvalue {
        if let InstructionValue::CallExpression { args, .. } = cvalue {
            let ghost lf = *lowered_func;
            let HIRFunction { params, body, .. } = *lowered_func;
            let ghost gp = params@;
            let ghost ga = args@;
            let m: usize = if params.len() <= args.len() { params.len() } else { args.len() };
            let mut rest_p = params;
            let mut rest_a = args;
            let ghost before = out@;
            let mut j: usize = 0;
            while j < m
                invariant
                    j <= m,
                    m <= gp.len(),
                    m <= ga.len(),
                    rest_p@ == gp.skip(j as int),
                    rest_a@ == ga.skip(j as int),
                    out@ == before + bindings(gp, ga, j as int, gf),
                    gf.id == fid,
                    gf.loc == floc,
                decreases m - j,
            {
                let p = rest_p.remove(0);
                let a = rest_a.remove(0);
                proof {
                    assert(gp.skip(j as int)[0] == gp[j as int]);
                    assert(ga.skip(j as int)[0] == ga[j as int]);
                }
                match p {
                    Param::Identifier(place) => {
                        out.push(Instruction { id: fid, lvalue: place, value: InstructionValue::LoadLocal { place: a }, loc: floc });
                    },
                    Param::Spread(_) => {},
                }
                proof {
                    assert(gp.skip(j + 1) =~= gp.skip(j as int).drop_first());
                    assert(ga.skip(j + 1) =~= ga.skip(j as int).drop_first());
                    assert(out@ =~= before + bindings(gp, ga, j + 1, gf));
                }
                j = j + 1;
            }
            let HIR { blocks, .. } = body;
            let mut blocks = blocks;
            let (_, entry_block) = blocks.remove(0);
            let BasicBlock { instructions: mut body_instrs, terminal, .. } = entry_block;
            if let Terminal::Return { value } = terminal {
                let ghost mid = out@;
                out.append(&mut body_instrs);
                out.push(Instruction { id: cid, lvalue: clvalue, value: InstructionValue::LoadLocal { place: value }, loc: cloc });
                proof {
                    assert(out@ =~= before + expansion(gf, gc));
                }
            }
        }
    }
}

fn inline_block(block: &mut BasicBlock)
    ensures
        same_block_except_instructions(*final(block), *old(block)),
        inlined(final(block).instructions@, old(block).instructions@),
{
    let mut rest: Vec<Instruction> = Vec::new();
    std::mem::swap(&mut block.instructions, &mut rest);
    let ghost orig = rest@;
    let ghost mut k: int = 0;
    while rest.len() > 0
        invariant
            0 <= k <= orig.len(),
            orig == old(block).instructions@,
            rest@ == orig.skip(k),
            same_block_except_instructions(*block, *old(block)),
            inlined(block.instructions@, orig.take(k)),
            0 < k < orig.len() ==> !is_iife(orig[k - 1], orig[k]),
        decreases rest.len(),
    {
        let site = rest.len() >= 2 && is_iife_site(&rest[0], &rest[1]);
        let ghost before = block.instructions@;
        if site {
            proof {
                assert(orig.skip(k)[0] == orig[k]);
                assert(orig.skip(k)[1] == orig[k + 1]);
            }
            let f = rest.remove(0);
            let c = rest.remove(0);
            expand(&mut block.instructions, f, c);
            proof {
                let t = orig.take(k + 2);
                assert(t[t.len() - 2] == orig[k]);
                assert(t.last() == orig[k + 1]);
                assert(t.take(t.len() - 2) =~= orig.take(k));
                let n = block.instructions@;
                let e = expansion(orig[k], orig[k + 1]);
                assert(n.take(n.len() - e.len()) =~= before);
                assert(n.skip(n.len() - e.len()) =~= e);
                assert(orig.skip(k + 2) =~= orig.skip(k).drop_first().drop_first());
                if k + 2 < orig.len() {
                    assert(orig[k + 1].value is CallExpression);
                }
                k = k + 2;
            }
        } else {
            proof {
                assert(orig.skip(k)[0] == orig[k]);
                if rest@.len() >= 2 {
                    assert(orig.skip(k)[1] == orig[k + 1]);
                }
            }
            let x = rest.remove(0);
            block.instructions.push(x);
            proof {
                let t = orig.take(k + 1);
                assert(t.drop_last() =~= orig.take(k));
                assert(t.last() == orig[k]);
                if t.len() >= 2 {
                    assert(t[t.len() - 2] == orig[k - 1]);
                }
                assert(block.instructions@.drop_last() =~= before);
                assert(orig.skip(k + 1) =~= orig.skip(k).drop_first());
                k = k + 1;
            }
        }
    }
    proof {
        assert(orig.take(k) =~= orig);
    }
}

/// The largest block id, or 0 when there are no blocks.
pub open spec fn max_block_id(blocks: Seq<(BlockId, BasicBlock)>) -> u32
    decreases blocks.len(),
{
    if blocks.len() == 0 {
        0
    } else {
        let prev = max_block_id(blocks.drop_last());
        if blocks.last().0.0 > prev { blocks.last().0.0 } else { prev }
    }
}

fn find_max_block_id(hir: &HIR) -> (r: u32)
    ensures
        r == max_block_id(hir.blocks@),
{
    let mut m: u32 = 0;
    let mut i: usize = 0;
    while i < hir.blocks.len()
        invariant
            i <= hir.blocks@.len(),
            m == max_block_id(hir.blocks@.take(i as int)),
        decreases hir.blocks.len() - i,
    {
        proof {
            assert(hir.blocks@.take(i + 1).drop_last() =~= hir.blocks@.take(i as int));
        }
        if hir.blocks[i].0.0 > m {
            m = hir.blocks[i].0.0;
        }
        i = i + 1;
    }
    proof {
        assert(hir.blocks@.take(i as int) =~= hir.blocks@);
    }
    m
}

/// Inline immediately-invoked function expressions. A call whose callee is
/// the function expression defined by the instruction just before it is
/// inlined when the function captures nothing and has a single block that
/// ends in `return`: the pair is replaced by a load of each argument into
/// its (non-spread) parameter, the function's body, and the call turned
/// into a load of the returned value. The pass also reserves the block id
/// after the largest in use, which must therefore be below `u32::MAX`.
pub fn inline_iife(hir: &mut HIR)
    requires
        max_block_id(old(hir).blocks@) < u32::MAX,
    ensures
        final(hir).entry == old(hir).entry,
        final(hir).blocks@.len() == old(hir).blocks@.len(),
        forall|k: int| 0 <= k < old(hir).blocks@.len() ==> {
            &&& (#[trigger] final(hir).blocks@[k]).0 == old(hir).blocks@[k].0
            &&& same_block_except_instructions(final(hir).blocks@[k].1, old(hir).blocks@[k].1)
            &&& inlined(final(hir).blocks@[k].1.instructions@, old(hir).blocks@[k].1.instructions@)
        },
{
    let _next_block_id: u32 = find_max_block_id(hir) + 1;
    let mut i: usize = 0;
    while i < hir.blocks.len()
        invariant
            i <= hir.blocks@.len(),
            hir.entry == old(hir).entry,
            hir.blocks@.len() == old(hir).blocks@.len(),
            forall|k: int| 0 <= k < i ==> {
                &&& (#[trigger] hir.blocks@[k]).0 == old(hir).blocks@[k].0
                &&& same_block_except_instructions(hir.blocks@[k].1, old(hir).blocks@[k].1)
                &&& inlined(hir.blocks@[k].1.instructions@, old(hir).blocks@[k].1.instructions@)
            },
            forall|k: int| i <= k < hir.blocks@.len() ==> #[trigger] hir.blocks@[k] == old(hir).blocks@[k],
        decreases hir.blocks.len() - i,
    {
        inline_block(&mut hir.blocks[i].1);
        i = i + 1;
    }
}

} // verus!
