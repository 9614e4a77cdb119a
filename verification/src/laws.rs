//! The renderer's general laws, stated and proved against the directive
//! machine that `render` is verified to implement.
use crate::errors::ErrSpec;
use crate::machine::CtxS;
use crate::machine::ITER_LIMIT;
use crate::machine::LoopS;
use crate::machine::RunRes;
use crate::machine::StS;
use crate::machine::StepS;
use crate::machine::adv;
use crate::machine::find_end;
use crate::machine::gap;
use crate::machine::if_branch;
use crate::machine::render_fuel;
use crate::machine::renders_to;
use crate::machine::step1;
use crate::machine::tok_parts;
use crate::machine::u32_wrap;
use crate::resolve::legal_name;
use crate::resolve::resolve;
use crate::scan::scan;
use crate::text::indent_join;
use crate::text::open_indent;
use crate::text::sanitize_seq;
use crate::text::split_on;
use crate::value::Val;
use crate::value::truthy;
use crate::value::val_text;
use vstd::prelude::*;

verus! {

/// A template without directive tokens renders to itself, unchanged, and
/// leaves the variable mapping alone.
pub proof fn lemma_no_directives_identity(
    store: Map<Seq<char>, Seq<char>>,
    ext: Seq<char>,
    text: Seq<char>,
    vars: Map<Seq<char>, Val>,
    depth: int,
)
    requires
        scan(text).len() == 0,
    ensures
        renders_to(store, ext, text, vars, depth, RunRes::Done(text, vars)),
{
    assert(render_fuel(store, ext, text, vars, depth, 0nat) == RunRes::Done(text, vars));
}

/// The directive keywords are pairwise distinct.
proof fn lemma_keywords_distinct()
    ensures
        "component"@ != "for"@ && "component"@ != "endfor"@ && "component"@ != "if"@
            && "component"@ != "endif"@ && "component"@ != "html"@,
        "for"@ != "endfor"@ && "for"@ != "if"@ && "for"@ != "endif"@ && "for"@ != "html"@,
        "endfor"@ != "if"@ && "endfor"@ != "endif"@ && "endfor"@ != "html"@,
        "if"@ != "endif"@ && "if"@ != "html"@,
        "endif"@ != "html"@,
{
    reveal_strlit("component");
    reveal_strlit("for");
    reveal_strlit("endfor");
    reveal_strlit("if");
    reveal_strlit("endif");
    reveal_strlit("html");
    assert("component"@.len() == 9);
    assert("for"@.len() == 3);
    assert("endfor"@.len() == 6);
    assert("if"@.len() == 2);
    assert("endif"@.len() == 5);
    assert("html"@.len() == 4);
}

/// A one-argument `if:` step is decided by truthiness alone: a truthy value
/// advances into the guarded block; a falsy one jumps straight to the
/// matching `endif`, so nothing of the guarded block is output.
pub proof fn lemma_if_truthiness_decides(ctx: CtxS, st: StS, v: Val, j: int)
    requires
        0 <= st.cur < ctx.toks.len(),
        st.iters <= ITER_LIMIT as int,
        tok_parts(ctx.toks[st.cur]).len() == 2,
        tok_parts(ctx.toks[st.cur])[0] == "if"@,
        resolve(st.vars, tok_parts(ctx.toks[st.cur])[1]) == Result::<Val, ErrSpec>::Ok(v),
    ensures
        truthy(v) ==> step1(ctx, st) == StepS::Next(adv(ctx, st, Seq::empty(), st.vars, st.loops)),
        !truthy(v) ==> step1(ctx, st) == if_branch(ctx, st, false),
        (!truthy(v) && find_end(ctx.toks, st.cur + 1, "[[ if:"@, "[[ endif ]]"@, 0) == Some(j))
            ==> step1(ctx, st) == StepS::Next(
            (StS { cur: j, out: st.out, vars: st.vars, loops: st.loops, iters: st.iters }),
        ),
{
    lemma_keywords_distinct();
}

/// Entering a fresh `for` loop over a non-empty list with item, index and
/// maximum names binds the item to element 0, the index to 0 and the
/// maximum to one less than the list length, all in the one shared mapping,
/// and opens a loop context at iteration 0.
pub proof fn lemma_for_binds_bounds(ctx: CtxS, st: StS, items: Seq<Val>)
    requires
        0 <= st.cur < ctx.toks.len(),
        st.iters <= ITER_LIMIT as int,
        tok_parts(ctx.toks[st.cur]).len() == 5,
        tok_parts(ctx.toks[st.cur])[0] == "for"@,
        st.loops.len() == 0 || st.loops.last().tok != st.cur,
        resolve(st.vars, tok_parts(ctx.toks[st.cur])[1]) == Result::<Val, ErrSpec>::Ok(
            Val::List(items),
        ),
        legal_name(tok_parts(ctx.toks[st.cur])[2], false),
        legal_name(tok_parts(ctx.toks[st.cur])[3], false),
        legal_name(tok_parts(ctx.toks[st.cur])[4], false),
        items.len() > 0,
    ensures
        step1(ctx, st) == StepS::Next(
            adv(
                ctx,
                st,
                Seq::empty(),
                st.vars.insert(tok_parts(ctx.toks[st.cur])[2], items[0]).insert(
                    tok_parts(ctx.toks[st.cur])[3],
                    Val::U32(0),
                ).insert(tok_parts(ctx.toks[st.cur])[4], Val::U32(u32_wrap(items.len() - 1))),
                st.loops.push(
                    (LoopS {
                        tok: st.cur,
                        total: items.len() as int,
                        current: 0,
                        items: items,
                        iter_name: Some(tok_parts(ctx.toks[st.cur])[2]),
                        index_name: Some(tok_parts(ctx.toks[st.cur])[3]),
                    }),
                ),
            ),
        ),
{
    lemma_keywords_distinct();
}

/// Each later iteration of the innermost loop rebinds the item and the
/// index — the index to the new position, always below the loop's total —
/// in the one shared mapping, and jumps back to the loop's opener; the
/// maximum binding is never touched again.
pub proof fn lemma_endfor_rebinds(ctx: CtxS, st: StS)
    requires
        0 <= st.cur < ctx.toks.len(),
        st.iters <= ITER_LIMIT as int,
        tok_parts(ctx.toks[st.cur]).len() == 1,
        tok_parts(ctx.toks[st.cur])[0] == "endfor"@,
        st.loops.len() > 0,
        st.loops.last().current + 1 < st.loops.last().total,
        st.loops.last().iter_name is Some,
        st.loops.last().index_name is Some,
    ensures
        step1(ctx, st) == StepS::Next(
            (StS {
                cur: st.loops.last().tok,
                out: st.out,
                vars: st.vars.insert(
                    st.loops.last().iter_name->0,
                    st.loops.last().items[st.loops.last().current + 1],
                ).insert(
                    st.loops.last().index_name->0,
                    Val::U32(u32_wrap(st.loops.last().current + 1)),
                ),
                loops: st.loops.update(
                    st.loops.len() - 1,
                    (LoopS {
                        tok: st.loops.last().tok,
                        total: st.loops.last().total,
                        current: st.loops.last().current + 1,
                        items: st.loops.last().items,
                        iter_name: st.loops.last().iter_name,
                        index_name: st.loops.last().index_name,
                    }),
                ),
                iters: st.iters,
            }),
        ),
        st.loops.last().current + 1 < st.loops.last().total,
{
    lemma_keywords_distinct();
}

/// A fresh `for` over an empty list binds nothing, opens nothing, and
/// jumps past the matching `endfor`: only the literal text after that
/// `endfor` follows in the output, so the surrounding text is untouched.
pub proof fn lemma_for_empty_skips(ctx: CtxS, st: StS, j: int)
    requires
        0 <= st.cur < ctx.toks.len(),
        st.iters <= ITER_LIMIT as int,
        tok_parts(ctx.toks[st.cur]).len() == 2,
        tok_parts(ctx.toks[st.cur])[0] == "for"@,
        st.loops.len() == 0 || st.loops.last().tok != st.cur,
        resolve(st.vars, tok_parts(ctx.toks[st.cur])[1]) == Result::<Val, ErrSpec>::Ok(
            Val::List(Seq::empty()),
        ),
        find_end(ctx.toks, st.cur + 1, "[[ for:"@, "[[ endfor ]]"@, 0) == Some(j),
    ensures
        step1(ctx, st) == StepS::Next(
            (StS {
                cur: j + 1,
                out: st.out + gap(ctx, j),
                vars: st.vars,
                loops: st.loops,
                iters: st.iters,
            }),
        ),
{
    lemma_keywords_distinct();
}

/// `html:` output is appended exactly as rendered (never escaped); bare
/// variable output is always passed through the HTML escape.
pub proof fn lemma_output_escaping(ctx: CtxS, st: StS, v: Val)
    requires
        0 <= st.cur < ctx.toks.len(),
        st.iters <= ITER_LIMIT as int,
    ensures
        (tok_parts(ctx.toks[st.cur]).len() == 2 && tok_parts(ctx.toks[st.cur])[0] == "html"@
            && resolve(st.vars, tok_parts(ctx.toks[st.cur])[1]) == Result::<Val, ErrSpec>::Ok(v))
            ==> step1(ctx, st) == StepS::Next(
            adv(
                ctx,
                st,
                indent_join(split_on(val_text(v), '\n'), open_indent(st.out)),
                st.vars,
                st.loops,
            ),
        ),
        (tok_parts(ctx.toks[st.cur]).len() == 1 && tok_parts(ctx.toks[st.cur])[0] != "component"@
            && tok_parts(ctx.toks[st.cur])[0] != "for"@ && tok_parts(ctx.toks[st.cur])[0]
            != "endfor"@ && tok_parts(ctx.toks[st.cur])[0] != "if"@ && tok_parts(
            ctx.toks[st.cur],
        )[0] != "endif"@ && tok_parts(ctx.toks[st.cur])[0] != "html"@ && resolve(
            st.vars,
            tok_parts(ctx.toks[st.cur])[0],
        ) == Result::<Val, ErrSpec>::Ok(v)) ==> step1(ctx, st) == StepS::Next(
            adv(
                ctx,
                st,
                sanitize_seq(indent_join(split_on(val_text(v), '\n'), open_indent(st.out))),
                st.vars,
                st.loops,
            ),
        ),
{
    lemma_keywords_distinct();
}

/// Escaped output never holds a raw `<` or `>`.
pub proof fn lemma_sanitize_no_brackets(s: Seq<char>)
    ensures
        forall|i: int|
            0 <= i < sanitize_seq(s).len() ==> #[trigger] sanitize_seq(s)[i] != '<'
                && sanitize_seq(s)[i] != '>',
    decreases s.len(),
{
    if s.len() > 0 {
        lemma_sanitize_no_brackets(s.drop_last());
        let pre = sanitize_seq(s.drop_last());
        let e = crate::text::esc(s.last());
        assert(sanitize_seq(s) == pre + e);
        assert forall|i: int|
            0 <= i < sanitize_seq(s).len() implies #[trigger] sanitize_seq(s)[i] != '<'
            && sanitize_seq(s)[i] != '>' by {
            if i < pre.len() {
                assert(sanitize_seq(s)[i] == pre[i]);
            } else {
                assert(sanitize_seq(s)[i] == e[i - pre.len()]);
            }
        }
    }
}

/// Component expansion is cut off strictly beyond depth five: deeper
/// renders fail with the recursion guard before anything else is looked
/// at; at depth five or less a well-formed directive with a stored
/// component proceeds to expand.
pub proof fn lemma_component_depth(ctx: CtxS, st: StS, file: Seq<char>)
    requires
        0 <= st.cur < ctx.toks.len(),
        st.iters <= ITER_LIMIT as int,
        tok_parts(ctx.toks[st.cur]).len() == 2,
        tok_parts(ctx.toks[st.cur])[0] == "component"@,
        file == (if crate::text::find_char(tok_parts(ctx.toks[st.cur])[1], '.') == -1 {
            tok_parts(ctx.toks[st.cur])[1] + ctx.ext
        } else {
            tok_parts(ctx.toks[st.cur])[1]
        }),
    ensures
        ctx.depth > 5 ==> step1(ctx, st) == StepS::Fail(ErrSpec::RecursionTooDeep, st.vars),
        ctx.depth <= 5 && ctx.store.contains_key(file) ==> step1(ctx, st) == StepS::Comp(file, st),
        ctx.depth <= 5 && !ctx.store.contains_key(file) ==> step1(ctx, st) == StepS::Fail(
            ErrSpec::ComponentNotFound(file),
            st.vars,
        ),
{
}

} // verus!
