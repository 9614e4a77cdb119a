//! The directive interpreter's model: a deterministic small-step machine
//! over the token list, with a fuel-indexed runner. The executable renderer
//! is proved to produce exactly what the machine produces.
use crate::errors::ErrSpec;
use crate::resolve::legal_name;
use crate::resolve::resolve;
use crate::scan::Tok;
use crate::scan::scan;
use crate::text::indent_join;
use crate::text::open_indent;
use crate::text::sanitize_seq;
use crate::text::split_on;
use crate::text::starts_with_seq;
use crate::value::Val;
use crate::value::truthy;
use crate::value::val_eq;
use crate::value::val_text;
use vstd::prelude::*;

verus! {

/// The hard bound on interpreter steps that append output; exceeding it
/// fails the render rather than looping forever.
pub const ITER_LIMIT: usize = 75000;

/// A count reduced to 32 bits, as binding a loop index or maximum does.
pub open spec fn u32_wrap(n: int) -> u32 {
    (n % 0x1_0000_0000) as u32
}

/// One active `for` loop: the token index of its opening directive, the
/// iteration bounds, the snapshot of the list, and the optional names bound
/// per iteration.
pub ghost struct LoopS {
    pub tok: int,
    pub total: int,
    pub current: int,
    pub items: Seq<Val>,
    pub iter_name: Option<Seq<char>>,
    pub index_name: Option<Seq<char>>,
}

/// The interpreter state between steps: the cursor into the token list, the
/// output so far, the variable mapping, the loop stack and the count of
/// output-appending steps taken.
pub ghost struct StS {
    pub cur: int,
    pub out: Seq<char>,
    pub vars: Map<Seq<char>, Val>,
    pub loops: Seq<LoopS>,
    pub iters: int,
}

/// What never changes during one render: the template text, its tokens, the
/// component store, the configured extension and the recursion depth.
pub ghost struct CtxS {
    pub text: Seq<char>,
    pub toks: Seq<Tok>,
    pub store: Map<Seq<char>, Seq<char>>,
    pub ext: Seq<char>,
    pub depth: int,
}

/// The result of one step: a next state, a failure carrying the variable
/// mapping as mutated so far, or a component expansion to perform.
pub ghost enum StepS {
    Next(StS),
    Fail(ErrSpec, Map<Seq<char>, Val>),
    Comp(Seq<char>, StS),
}

/// The result of a run: out of fuel, done with output and final variables,
/// or failed with an error and the variables as mutated so far.
pub ghost enum RunRes {
    Stop,
    Done(Seq<char>, Map<Seq<char>, Val>),
    Fail(ErrSpec, Map<Seq<char>, Val>),
}

/// The literal text between token `i` and its successor (or the text end).
pub open spec fn gap(ctx: CtxS, i: int) -> Seq<char> {
    let e = ctx.toks[i].at + ctx.toks[i].content.len();
    if i == ctx.toks.len() - 1 {
        ctx.text.subrange(e, ctx.text.len() as int)
    } else {
        ctx.text.subrange(e, ctx.toks[i + 1].at)
    }
}

/// Advance past the current token: append `add` and the trailing literal
/// text, keep the mapping and loops as given.
pub open spec fn adv(
    ctx: CtxS,
    st: StS,
    add: Seq<char>,
    vars: Map<Seq<char>, Val>,
    loops: Seq<LoopS>,
) -> StS {
    StS {
        cur: st.cur + 1,
        out: st.out + add + gap(ctx, st.cur),
        vars: vars,
        loops: loops,
        iters: st.iters + 1,
    }
}

/// The `:`-separated parts of a token's payload (the text between the
/// delimiters).
pub open spec fn tok_parts(tok: Tok) -> Seq<Seq<char>> {
    split_on(tok.content.subrange(3, tok.content.len() - 3), ':')
}

/// The nesting-aware search for the closing token: `opener`-prefixed tokens
/// open one more level, an exact `closer` at level zero is the match.
pub open spec fn find_end(
    toks: Seq<Tok>,
    from: int,
    opener: Seq<char>,
    closer: Seq<char>,
    extra: int,
) -> Option<int>
    decreases toks.len() - from,
{
    if from < 0 || from >= toks.len() {
        None
    } else if starts_with_seq(toks[from].content, opener) {
        find_end(toks, from + 1, opener, closer, extra + 1)
    } else if toks[from].content == closer {
        if extra == 0 {
            Some(from)
        } else {
            find_end(toks, from + 1, opener, closer, extra - 1)
        }
    } else {
        find_end(toks, from + 1, opener, closer, extra)
    }
}

/// Dispatch on the token under the cursor. `st.cur` is in range.
pub open spec fn step1(ctx: CtxS, st: StS) -> StepS {
    if st.iters > ITER_LIMIT as int {
        StepS::Fail(ErrSpec::IterationLimit, st.vars)
    } else {
        let parts = tok_parts(ctx.toks[st.cur]);
        if parts.len() < 1 {
            StepS::Fail(ErrSpec::BadArgument("An empty '[[ ]]' is not valid"@), st.vars)
        } else if parts[0] == "component"@ {
            component_step(ctx, st, parts)
        } else if parts[0] == "for"@ {
            for_step(ctx, st, parts)
        } else if parts[0] == "endfor"@ {
            endfor_step(ctx, st)
        } else if parts[0] == "if"@ {
            if_step(ctx, st, parts)
        } else if parts[0] == "endif"@ {
            StepS::Next(adv(ctx, st, Seq::empty(), st.vars, st.loops))
        } else {
            out_step(ctx, st, parts)
        }
    }
}

/// The `component:<name>` dispatch: guard the recursion depth and the
/// arity, append the extension when the name has no dot, and demand the
/// stored content.
pub open spec fn component_step(ctx: CtxS, st: StS, parts: Seq<Seq<char>>) -> StepS {
    if ctx.depth > 5 {
        StepS::Fail(ErrSpec::RecursionTooDeep, st.vars)
    } else if parts.len() != 2 {
        StepS::Fail(
            ErrSpec::BadArgument(
                "`component:` statement missing component name (second arg), or more than two args"@,
            ),
            st.vars,
        )
    } else {
        let file = if crate::text::find_char(parts[1], '.') == -1 {
            parts[1] + ctx.ext
        } else {
            parts[1]
        };
        if !ctx.store.contains_key(file) {
            StepS::Fail(ErrSpec::ComponentNotFound(file), st.vars)
        } else {
            StepS::Comp(file, st)
        }
    }
}

/// The `for:<list>[:<item>[:<index>[:<max>]]]` dispatch: a re-visited
/// opener just advances; a fresh one resolves the list and initialises.
pub open spec fn for_step(ctx: CtxS, st: StS, parts: Seq<Seq<char>>) -> StepS {
    if st.loops.len() > 0 && st.loops.last().tok == st.cur {
        StepS::Next(adv(ctx, st, Seq::empty(), st.vars, st.loops))
    } else if parts.len() < 2 {
        StepS::Fail(
            ErrSpec::BadArgument("`for:` statement missing variable name to loop over (second arg)"@),
            st.vars,
        )
    } else {
        match resolve(st.vars, parts[1]) {
            Result::Err(e) => StepS::Fail(e, st.vars),
            Result::Ok(v) => match v {
                Val::List(items) => for_init(ctx, st, parts, items),
                _ => StepS::Fail(
                    ErrSpec::BadArgument(
                        "variable being looped over in `for:` statement is not a vector"@,
                    ),
                    st.vars,
                ),
            },
        }
    }
}

/// Initialise a fresh loop: check the optional names in order, bind them
/// when the list is non-empty, then push a loop context — or, for an empty
/// list, bind nothing and jump past the matching `endfor`.
pub open spec fn for_init(ctx: CtxS, st: StS, parts: Seq<Seq<char>>, items: Seq<Val>) -> StepS {
    if parts.len() >= 3 && !legal_name(parts[2], false) {
        StepS::Fail(ErrSpec::IllegalVarName(parts[2]), st.vars)
    } else {
        let vars1 = if parts.len() >= 3 && items.len() > 0 {
            st.vars.insert(parts[2], items[0])
        } else {
            st.vars
        };
        if parts.len() >= 4 && !legal_name(parts[3], false) {
            StepS::Fail(ErrSpec::IllegalVarName(parts[3]), vars1)
        } else {
            let vars2 = if parts.len() >= 4 && items.len() > 0 {
                vars1.insert(parts[3], Val::U32(0))
            } else {
                vars1
            };
            if parts.len() >= 5 && !legal_name(parts[4], false) {
                StepS::Fail(ErrSpec::IllegalVarName(parts[4]), vars2)
            } else {
                let vars3 = if parts.len() >= 5 && items.len() > 0 {
                    vars2.insert(parts[4], Val::U32(u32_wrap(items.len() - 1)))
                } else {
                    vars2
                };
                if items.len() == 0 {
                    match find_end(ctx.toks, st.cur + 1, "[[ for:"@, "[[ endfor ]]"@, 0) {
                        Option::None => StepS::Fail(ErrSpec::MissingEndFor, vars3),
                        Option::Some(j) => StepS::Next(
                            StS {
                                cur: j + 1,
                                out: st.out + gap(ctx, j),
                                vars: vars3,
                                loops: st.loops,
                                iters: st.iters,
                            },
                        ),
                    }
                } else {
                    let lp = LoopS {
                        tok: st.cur,
                        total: items.len() as int,
                        current: 0,
                        items: items,
                        iter_name: if parts.len() >= 3 {
                            Some(parts[2])
                        } else {
                            None
                        },
                        index_name: if parts.len() >= 4 {
                            Some(parts[3])
                        } else {
                            None
                        },
                    };
                    StepS::Next(adv(ctx, st, Seq::empty(), vars3, st.loops.push(lp)))
                }
            }
        }
    }
}

/// The `endfor` dispatch: advance the innermost loop; pop it when its
/// iterations are spent, otherwise rebind and jump back to its opener.
pub open spec fn endfor_step(ctx: CtxS, st: StS) -> StepS {
    if st.loops.len() == 0 {
        StepS::Fail(ErrSpec::BadArgument("`endfor` without an open `for:` block"@), st.vars)
    } else {
        let top = st.loops.last();
        if top.current + 1 >= top.total {
            StepS::Next(adv(ctx, st, Seq::empty(), st.vars, st.loops.drop_last()))
        } else {
            let c2 = top.current + 1;
            let vars1 = match top.iter_name {
                Option::Some(nm) => st.vars.insert(nm, top.items[c2]),
                Option::None => st.vars,
            };
            let vars2 = match top.index_name {
                Option::Some(nm) => vars1.insert(nm, Val::U32(u32_wrap(c2))),
                Option::None => vars1,
            };
            StepS::Next(
                StS {
                    cur: top.tok,
                    out: st.out,
                    vars: vars2,
                    loops: st.loops.update(
                        st.loops.len() - 1,
                        LoopS {
                            tok: top.tok,
                            total: top.total,
                            current: c2,
                            items: top.items,
                            iter_name: top.iter_name,
                            index_name: top.index_name,
                        },
                    ),
                    iters: st.iters,
                },
            )
        }
    }
}

/// The `if:<var>[:<var2>]` dispatch: truthiness with one argument, equality
/// (negated under a leading `!`) with two.
pub open spec fn if_step(ctx: CtxS, st: StS, parts: Seq<Seq<char>>) -> StepS {
    if parts.len() < 2 {
        StepS::Fail(
            ErrSpec::BadArgument("`if:` statement missing variable name (second arg)"@),
            st.vars,
        )
    } else {
        match resolve(st.vars, parts[1]) {
            Result::Err(e) => StepS::Fail(e, st.vars),
            Result::Ok(v) => {
                if parts.len() == 2 {
                    if_branch(ctx, st, truthy(v))
                } else if parts.len() == 3 {
                    let neg = parts[2].len() > 0 && parts[2][0] == '!';
                    let nm2 = if neg {
                        parts[2].subrange(1, parts[2].len() as int)
                    } else {
                        parts[2]
                    };
                    match resolve(st.vars, nm2) {
                        Result::Err(e) => StepS::Fail(e, st.vars),
                        Result::Ok(v2) => if_branch(ctx, st, val_eq(v, v2) != neg),
                    }
                } else {
                    StepS::Fail(
                        ErrSpec::BadArgument("`if:` statement cannot have more than 3 args"@),
                        st.vars,
                    )
                }
            },
        }
    }
}

/// Take or skip the guarded block: a passing condition advances; a failing
/// one jumps to the matching `endif` (processed as a no-op).
pub open spec fn if_branch(ctx: CtxS, st: StS, cond: bool) -> StepS {
    if cond {
        StepS::Next(adv(ctx, st, Seq::empty(), st.vars, st.loops))
    } else {
        match find_end(ctx.toks, st.cur + 1, "[[ if:"@, "[[ endif ]]"@, 0) {
            Option::None => StepS::Fail(ErrSpec::MissingEndIf, st.vars),
            Option::Some(j) => StepS::Next(
                StS { cur: j, out: st.out, vars: st.vars, loops: st.loops, iters: st.iters },
            ),
        }
    }
}

/// The variable-output dispatch (`html:<var>` or bare `<var>`): render the
/// value, indent its later lines to the open indentation, escape unless
/// `html:`, and append.
pub open spec fn out_step(ctx: CtxS, st: StS, parts: Seq<Seq<char>>) -> StepS {
    let is_html = parts[0] == "html"@;
    if is_html && parts.len() != 2 {
        StepS::Fail(
            ErrSpec::BadArgument(
                "`html:` statement missing variable name, the second arg, or has more than two args"@,
            ),
            st.vars,
        )
    } else {
        let name = if is_html {
            parts[1]
        } else {
            parts[0]
        };
        match resolve(st.vars, name) {
            Result::Err(e) => StepS::Fail(e, st.vars),
            Result::Ok(v) => {
                let joined = indent_join(split_on(val_text(v), '\n'), open_indent(st.out));
                let add = if is_html {
                    joined
                } else {
                    sanitize_seq(joined)
                };
                StepS::Next(adv(ctx, st, add, st.vars, st.loops))
            },
        }
    }
}

/// Run the machine for at most `fuel` steps.
pub open spec fn run_toks(ctx: CtxS, st: StS, fuel: nat) -> RunRes
    decreases fuel, 0int,
{
    if st.cur >= ctx.toks.len() {
        RunRes::Done(st.out, st.vars)
    } else if fuel == 0 {
        RunRes::Stop
    } else {
        match step1(ctx, st) {
            StepS::Next(st2) => run_toks(ctx, st2, (fuel - 1) as nat),
            StepS::Fail(e, v) => RunRes::Fail(e, v),
            StepS::Comp(file, st1) => match render_fuel(
                ctx.store,
                ctx.ext,
                ctx.store[file],
                st1.vars,
                ctx.depth + 1,
                (fuel - 1) as nat,
            ) {
                RunRes::Stop => RunRes::Stop,
                RunRes::Fail(e, v) => RunRes::Fail(e, v),
                RunRes::Done(s, v2) => run_toks(
                    ctx,
                    adv(ctx, st1, s, v2, st1.loops),
                    (fuel - 1) as nat,
                ),
            },
        }
    }
}

/// The machine's initial state: everything before the first token is
/// already output.
pub open spec fn init_st(text: Seq<char>, toks: Seq<Tok>, vars: Map<Seq<char>, Val>) -> StS {
    StS { cur: 0, out: text.subrange(0, toks[0].at), vars: vars, loops: Seq::empty(), iters: 0 }
}

/// The context a render of `text` at `depth` runs in.
pub open spec fn mk_ctx(
    store: Map<Seq<char>, Seq<char>>,
    ext: Seq<char>,
    text: Seq<char>,
    depth: int,
) -> CtxS {
    CtxS { text: text, toks: scan(text), store: store, ext: ext, depth: depth }
}

/// Render `text` with at most `fuel` machine steps: a template without
/// directive tokens is returned unchanged, any other runs the machine.
pub open spec fn render_fuel(
    store: Map<Seq<char>, Seq<char>>,
    ext: Seq<char>,
    text: Seq<char>,
    vars: Map<Seq<char>, Val>,
    depth: int,
    fuel: nat,
) -> RunRes
    decreases fuel, 1int,
{
    let toks = scan(text);
    if toks.len() == 0 {
        RunRes::Done(text, vars)
    } else {
        run_toks(mk_ctx(store, ext, text, depth), init_st(text, toks, vars), fuel)
    }
}

/// What rendering `text` against `vars` at `depth` produces: the one
/// terminal result the machine reaches with enough fuel.
pub open spec fn renders_to(
    store: Map<Seq<char>, Seq<char>>,
    ext: Seq<char>,
    text: Seq<char>,
    vars: Map<Seq<char>, Val>,
    depth: int,
    o: RunRes,
) -> bool {
    o != RunRes::Stop && exists|fuel: nat| render_fuel(store, ext, text, vars, depth, fuel) == o
}

/// More fuel never changes a result already reached.
pub proof fn lemma_run_mono(ctx: CtxS, st: StS, f1: nat, f2: nat)
    requires
        run_toks(ctx, st, f1) != RunRes::Stop,
        f1 <= f2,
    ensures
        run_toks(ctx, st, f2) == run_toks(ctx, st, f1),
    decreases f1, 0int,
{
    if st.cur >= ctx.toks.len() {
    } else {
        match step1(ctx, st) {
            StepS::Next(st2) => {
                lemma_run_mono(ctx, st2, (f1 - 1) as nat, (f2 - 1) as nat);
            },
            StepS::Fail(e, v) => {},
            StepS::Comp(file, st1) => {
                let sub1 = render_fuel(
                    ctx.store,
                    ctx.ext,
                    ctx.store[file],
                    st1.vars,
                    ctx.depth + 1,
                    (f1 - 1) as nat,
                );
                lemma_render_fuel_mono(
                    ctx.store,
                    ctx.ext,
                    ctx.store[file],
                    st1.vars,
                    ctx.depth + 1,
                    (f1 - 1) as nat,
                    (f2 - 1) as nat,
                );
                match sub1 {
                    RunRes::Stop => {},
                    RunRes::Fail(e, v) => {},
                    RunRes::Done(s, v2) => {
                        lemma_run_mono(
                            ctx,
                            adv(ctx, st1, s, v2, st1.loops),
                            (f1 - 1) as nat,
                            (f2 - 1) as nat,
                        );
                    },
                }
            },
        }
    }
}

/// More fuel never changes a render result already reached.
pub proof fn lemma_render_fuel_mono(
    store: Map<Seq<char>, Seq<char>>,
    ext: Seq<char>,
    text: Seq<char>,
    vars: Map<Seq<char>, Val>,
    depth: int,
    f1: nat,
    f2: nat,
)
    requires
        f1 <= f2,
        render_fuel(store, ext, text, vars, depth, f1) != RunRes::Stop,
    ensures
        render_fuel(store, ext, text, vars, depth, f2) == render_fuel(
            store,
            ext,
            text,
            vars,
            depth,
            f1,
        ),
    decreases f1, 1int,
{
    let toks = scan(text);
    if toks.len() != 0 {
        lemma_run_mono(mk_ctx(store, ext, text, depth), init_st(text, toks, vars), f1, f2);
    }
}

/// The machine is deterministic: at most one terminal result is reachable.
pub proof fn lemma_renders_to_unique(
    store: Map<Seq<char>, Seq<char>>,
    ext: Seq<char>,
    text: Seq<char>,
    vars: Map<Seq<char>, Val>,
    depth: int,
    o1: RunRes,
    o2: RunRes,
)
    requires
        renders_to(store, ext, text, vars, depth, o1),
        renders_to(store, ext, text, vars, depth, o2),
    ensures
        o1 == o2,
{
    let f1 = choose|f: nat| #[trigger] render_fuel(store, ext, text, vars, depth, f) == o1;
    let f2 = choose|f: nat| #[trigger] render_fuel(store, ext, text, vars, depth, f) == o2;
    if f1 <= f2 {
        lemma_render_fuel_mono(store, ext, text, vars, depth, f1, f2);
    } else {
        lemma_render_fuel_mono(store, ext, text, vars, depth, f2, f1);
    }
}

/// Whether the machine, started at `st`, can reach the terminal result `o`.
pub open spec fn rt_from(ctx: CtxS, st: StS, o: RunRes) -> bool {
    exists|fuel: nat| run_toks(ctx, st, fuel) == o
}

/// A `Next` step changes nothing about which terminal results are
/// reachable.
pub proof fn lemma_step_next(ctx: CtxS, st: StS, st2: StS)
    requires
        0 <= st.cur < ctx.toks.len(),
        step1(ctx, st) == StepS::Next(st2),
    ensures
        forall|o: RunRes|
            o != RunRes::Stop ==> (#[trigger] rt_from(ctx, st2, o) <==> rt_from(ctx, st, o)),
{
    assert forall|o: RunRes| o != RunRes::Stop implies (#[trigger] rt_from(ctx, st2, o)
        <==> rt_from(ctx, st, o)) by {
        if rt_from(ctx, st2, o) {
            let f = choose|f: nat| #[trigger] run_toks(ctx, st2, f) == o;
            assert(run_toks(ctx, st, f + 1) == o);
        }
        if rt_from(ctx, st, o) {
            let f = choose|f: nat| #[trigger] run_toks(ctx, st, f) == o;
            assert(f > 0);
            assert(run_toks(ctx, st2, (f - 1) as nat) == o);
        }
    }
}

/// A failing step settles the run.
pub proof fn lemma_step_fail(ctx: CtxS, st: StS, e: ErrSpec, v: Map<Seq<char>, Val>)
    requires
        0 <= st.cur < ctx.toks.len(),
        step1(ctx, st) == StepS::Fail(e, v),
    ensures
        rt_from(ctx, st, RunRes::Fail(e, v)),
{
    assert(run_toks(ctx, st, 1) == RunRes::Fail(e, v));
}

/// A component step whose expansion fails settles the run with that
/// failure.
pub proof fn lemma_comp_fail(
    ctx: CtxS,
    st: StS,
    file: Seq<char>,
    e: ErrSpec,
    v: Map<Seq<char>, Val>,
)
    requires
        0 <= st.cur < ctx.toks.len(),
        step1(ctx, st) == StepS::Comp(file, st),
        renders_to(ctx.store, ctx.ext, ctx.store[file], st.vars, ctx.depth + 1, RunRes::Fail(e, v)),
    ensures
        rt_from(ctx, st, RunRes::Fail(e, v)),
{
    let f = choose|f: nat|
        #[trigger] render_fuel(ctx.store, ctx.ext, ctx.store[file], st.vars, ctx.depth + 1, f)
            == RunRes::Fail(e, v);
    assert(run_toks(ctx, st, f + 1) == RunRes::Fail(e, v));
}

/// A component step whose expansion succeeds behaves as one big `Next`
/// step into the spliced state.
pub proof fn lemma_comp_ok(
    ctx: CtxS,
    st: StS,
    file: Seq<char>,
    s: Seq<char>,
    v2: Map<Seq<char>, Val>,
)
    requires
        0 <= st.cur < ctx.toks.len(),
        step1(ctx, st) == StepS::Comp(file, st),
        renders_to(ctx.store, ctx.ext, ctx.store[file], st.vars, ctx.depth + 1, RunRes::Done(s, v2)),
    ensures
        forall|o: RunRes|
            o != RunRes::Stop ==> (#[trigger] rt_from(ctx, adv(ctx, st, s, v2, st.loops), o)
                <==> rt_from(ctx, st, o)),
{
    let st2 = adv(ctx, st, s, v2, st.loops);
    let fs = choose|f: nat|
        #[trigger] render_fuel(ctx.store, ctx.ext, ctx.store[file], st.vars, ctx.depth + 1, f)
            == RunRes::Done(s, v2);
    assert forall|o: RunRes| o != RunRes::Stop implies (#[trigger] rt_from(ctx, st2, o)
        <==> rt_from(ctx, st, o)) by {
        if rt_from(ctx, st2, o) {
            let f = choose|f: nat| #[trigger] run_toks(ctx, st2, f) == o;
            let big = if f >= fs {
                f
            } else {
                fs
            };
            lemma_render_fuel_mono(
                ctx.store,
                ctx.ext,
                ctx.store[file],
                st.vars,
                ctx.depth + 1,
                fs,
                big,
            );
            lemma_run_mono(ctx, st2, f, big);
            assert(run_toks(ctx, st, big + 1) == o);
        }
        if rt_from(ctx, st, o) {
            let f = choose|f: nat| #[trigger] run_toks(ctx, st, f) == o;
            assert(f > 0);
            let sub = render_fuel(
                ctx.store,
                ctx.ext,
                ctx.store[file],
                st.vars,
                ctx.depth + 1,
                (f - 1) as nat,
            );
            if sub == RunRes::Stop {
                assert(run_toks(ctx, st, f) == RunRes::Stop);
            } else {
                lemma_renders_to_unique_fuel(
                    ctx.store,
                    ctx.ext,
                    ctx.store[file],
                    st.vars,
                    ctx.depth + 1,
                    (f - 1) as nat,
                    fs,
                );
                assert(sub == RunRes::Done(s, v2));
                assert(run_toks(ctx, st2, (f - 1) as nat) == o);
            }
        }
    }
}

/// Two fuels that both reach a terminal result reach the same one.
proof fn lemma_renders_to_unique_fuel(
    store: Map<Seq<char>, Seq<char>>,
    ext: Seq<char>,
    text: Seq<char>,
    vars: Map<Seq<char>, Val>,
    depth: int,
    f1: nat,
    f2: nat,
)
    requires
        render_fuel(store, ext, text, vars, depth, f1) != RunRes::Stop,
        render_fuel(store, ext, text, vars, depth, f2) != RunRes::Stop,
    ensures
        render_fuel(store, ext, text, vars, depth, f1) == render_fuel(
            store,
            ext,
            text,
            vars,
            depth,
            f2,
        ),
{
    if f1 <= f2 {
        lemma_render_fuel_mono(store, ext, text, vars, depth, f1, f2);
    } else {
        lemma_render_fuel_mono(store, ext, text, vars, depth, f2, f1);
    }
}

/// The sum of the iterations the active loops still owe; what the
/// interpreter's backward jumps pay down.
pub open spec fn loops_remaining(ls: Seq<LoopS>) -> int
    decreases ls.len(),
{
    if ls.len() == 0 {
        0
    } else {
        loops_remaining(ls.drop_last()) + (ls.last().total - ls.last().current)
    }
}

/// A loop stack that owes no negative work.
pub proof fn lemma_remaining_nonneg(ls: Seq<LoopS>)
    requires
        forall|k: int| 0 <= k < ls.len() ==> (#[trigger] ls[k]).current <= ls[k].total,
    ensures
        loops_remaining(ls) >= 0,
    decreases ls.len(),
{
    if ls.len() > 0 {
        assert(forall|k: int|
            0 <= k < ls.drop_last().len() ==> #[trigger] ls.drop_last()[k] == ls[k]);
        lemma_remaining_nonneg(ls.drop_last());
    }
}

} // verus!
