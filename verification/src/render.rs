//! The renderer: configuration, the component store, and the directive
//! interpreter that turns a template and a variable mapping into output.
use crate::errors::ErrSpec;
use crate::errors::ErrorKind;
use crate::machine::ITER_LIMIT;
use crate::machine::LoopS;
use crate::machine::RunRes;
use crate::machine::StS;
use crate::machine::StepS;
use crate::machine::adv;
use crate::machine::find_end;
use crate::machine::init_st;
use crate::machine::lemma_comp_fail;
use crate::machine::lemma_comp_ok;
use crate::machine::lemma_remaining_nonneg;
use crate::machine::lemma_step_fail;
use crate::machine::lemma_step_next;
use crate::machine::loops_remaining;
use crate::machine::mk_ctx;
use crate::machine::render_fuel;
use crate::machine::renders_to;
use crate::machine::rt_from;
use crate::machine::run_toks;
use crate::machine::step1;
use crate::machine::tok_parts;
use crate::scan::SyntaxMatch;
use crate::scan::scan;
use crate::scan::scan_spans;
use crate::scan::spans_to_matches;
use crate::text::chars_to_string;
use crate::text::sanitize_seq;
use crate::text::sanitize_chars;
use crate::text::split_on;
use crate::text::to_char_vec;
use crate::value::Val;
use crate::value::VarValue;
use crate::value::val_of;
use crate::value::vals_of;
use vstd::prelude::*;

verus! {

/// A validated template file extension: text that starts with a dot.
#[derive(Debug)]
pub struct FileExtension {
    file_extension: String,
}

impl View for FileExtension {
    type V = Seq<char>;

    closed spec fn view(&self) -> Seq<char> {
        self.file_extension@
    }
}

impl FileExtension {
    /// Accept an extension only when it starts with `.`.
    pub fn new(file_extension: String) -> (r: Result<Self, ErrorKind>)
        ensures
            match r {
                Ok(fe) => file_extension@.len() > 0 && file_extension@[0] == '.' && fe@
                    == file_extension@,
                Err(e) => !(file_extension@.len() > 0 && file_extension@[0] == '.') && e@
                    == ErrSpec::InvalidFileExtension,
            },
    {
        let n = file_extension.as_str().unicode_len();
        if n > 0 && file_extension.as_str().get_char(0) == '.' {
            Ok(FileExtension { file_extension })
        } else {
            Err(ErrorKind::InvalidFileExtension)
        }
    }

    /// The extension's text.
    pub fn get_string_ref(&self) -> (r: &String)
        ensures
            r@ == self@,
    {
        &self.file_extension
    }

    /// `new`, under the conversion's usual name.
    pub fn try_from(a: String) -> (r: Result<Self, ErrorKind>)
        ensures
            match r {
                Ok(fe) => a@.len() > 0 && a@[0] == '.' && fe@ == a@,
                Err(e) => !(a@.len() > 0 && a@[0] == '.') && e@ == ErrSpec::InvalidFileExtension,
            },
    {
        FileExtension::new(a)
    }
}

impl PartialEq for FileExtension {
    fn eq(&self, other: &Self) -> (r: bool) {
        self.file_extension == other.file_extension
    }
}

impl vstd::std_specs::cmp::PartialEqSpecImpl for FileExtension {
    open spec fn obeys_eq_spec() -> bool {
        true
    }

    open spec fn eq_spec(&self, other: &Self) -> bool {
        self@ == other@
    }
}

impl From<FileExtension> for String {
    fn from(file_extension: FileExtension) -> (r: String) {
        file_extension.file_extension
    }
}

impl vstd::std_specs::convert::FromSpecImpl<FileExtension> for String {
    open spec fn obeys_from_spec() -> bool {
        true
    }

    closed spec fn from_spec(file_extension: FileExtension) -> String {
        file_extension.file_extension
    }
}

/// The stored components: names to contents, earliest entry winning.
struct StrMap {
    entries: Vec<(String, String)>,
}

/// The mapping denoted by stored name/content pairs: the earliest entry
/// wins when a name repeats.
pub open spec fn smap(es: Seq<(Seq<char>, Seq<char>)>) -> Map<Seq<char>, Seq<char>>
    decreases es.len(),
{
    if es.len() == 0 {
        Map::empty()
    } else {
        smap(es.drop_first()).insert(es[0].0, es[0].1)
    }
}

/// First-match lookup over stored name/content pairs.
pub open spec fn slookup(es: Seq<(Seq<char>, Seq<char>)>, k: Seq<char>) -> Option<Seq<char>>
    decreases es.len(),
{
    if es.len() == 0 {
        None
    } else if es[0].0 == k {
        Some(es[0].1)
    } else {
        slookup(es.drop_first(), k)
    }
}

proof fn lemma_slookup_smap(es: Seq<(Seq<char>, Seq<char>)>, k: Seq<char>)
    ensures
        smap(es).contains_key(k) == (slookup(es, k) is Some),
        slookup(es, k) is Some ==> smap(es)[k] == slookup(es, k)->0,
    decreases es.len(),
{
    if es.len() > 0 {
        lemma_slookup_smap(es.drop_first(), k);
    }
}

proof fn lemma_slookup_at(es: Seq<(Seq<char>, Seq<char>)>, k: Seq<char>, i: int)
    requires
        0 <= i < es.len(),
        es[i].0 == k,
        forall|j: int| 0 <= j < i ==> es[j].0 != k,
    ensures
        slookup(es, k) == Some(es[i].1),
    decreases i,
{
    if i > 0 {
        lemma_slookup_at(es.drop_first(), k, i - 1);
    }
}

proof fn lemma_slookup_none(es: Seq<(Seq<char>, Seq<char>)>, k: Seq<char>)
    requires
        forall|j: int| 0 <= j < es.len() ==> es[j].0 != k,
    ensures
        slookup(es, k) is None,
    decreases es.len(),
{
    if es.len() > 0 {
        lemma_slookup_none(es.drop_first(), k);
    }
}

impl StrMap {
    spec fn models(&self) -> Seq<(Seq<char>, Seq<char>)> {
        Seq::new(self.entries@.len(), |i: int| (self.entries@[i].0@, self.entries@[i].1@))
    }

    spec fn view_map(&self) -> Map<Seq<char>, Seq<char>> {
        smap(self.models())
    }

    fn new() -> (r: StrMap)
        ensures
            r.view_map() == Map::<Seq<char>, Seq<char>>::empty(),
    {
        let r = StrMap { entries: Vec::new() };
        proof {
            assert(r.models() =~= Seq::<(Seq<char>, Seq<char>)>::empty());
        }
        r
    }

    fn get(&self, name: &String) -> (r: Option<&String>)
        ensures
            match r {
                Some(v) => self.view_map().contains_key(name@) && self.view_map()[name@] == v@,
                None => !self.view_map().contains_key(name@),
            },
    {
        let ghost ms = self.models();
        let mut i: usize = 0;
        while i < self.entries.len()
            invariant
                0 <= i <= self.entries@.len(),
                ms == self.models(),
                forall|j: int| 0 <= j < i ==> ms[j].0 != name@,
            decreases self.entries@.len() - i,
        {
            if self.entries[i].0 == *name {
                proof {
                    lemma_slookup_at(ms, name@, i as int);
                    lemma_slookup_smap(ms, name@);
                }
                return Some(&self.entries[i].1);
            }
            i += 1;
        }
        proof {
            lemma_slookup_none(ms, name@);
            lemma_slookup_smap(ms, name@);
        }
        None
    }

    fn insert(&mut self, name: String, content: String)
        ensures
            final(self).view_map() == old(self).view_map().insert(name@, content@),
    {
        let ghost old_ms = old(self).models();
        self.entries.insert(0, (name, content));
        proof {
            let ms = self.models();
            assert(ms.drop_first() =~= old_ms);
            assert(self.view_map() =~= old(self).view_map().insert(ms[0].0, ms[0].1));
        }
    }
}

/// The renderer's model: its directories, extension and stored components.
pub ghost struct RendererS {
    pub templates_dir: Seq<char>,
    pub components_dir: Seq<char>,
    pub ext: Seq<char>,
    pub components: Map<Seq<char>, Seq<char>>,
}

/// A template renderer: where templates and components live, which
/// extension to append to bare names, and the stored component contents.
pub struct Renderer {
    pub templates_dir: String,
    pub components_dir: String,
    pub file_extension: FileExtension,
    components: StrMap,
}

impl View for Renderer {
    type V = RendererS;

    closed spec fn view(&self) -> RendererS {
        RendererS {
            templates_dir: self.templates_dir@,
            components_dir: self.components_dir@,
            ext: self.file_extension@,
            components: self.components.view_map(),
        }
    }
}

/// The recursion depth a render starts at.
pub open spec fn depth_of(recursion_layer: Option<usize>) -> int {
    match recursion_layer {
        Some(d) => d as int,
        None => 0,
    }
}

/// Joining two path pieces: a doubled `/` at the seam collapses, a missing
/// one is supplied.
pub open spec fn concat_path_spec(p1: Seq<char>, p2: Seq<char>) -> Seq<char> {
    let e1 = p1.len() > 0 && p1.last() == '/';
    let s2 = p2.len() > 0 && p2[0] == '/';
    if e1 && s2 {
        p1.drop_last() + p2
    } else if !e1 && !s2 {
        p1 + seq!['/'] + p2
    } else {
        p1 + p2
    }
}

impl Renderer {
    /// A renderer over the given directories and extension, with no
    /// components stored yet.
    pub fn new(templates_dir: String, components_dir: String, file_extension: FileExtension) -> (r:
        Renderer)
        ensures
            r@ == (RendererS {
                templates_dir: templates_dir@,
                components_dir: components_dir@,
                ext: file_extension@,
                components: Map::<Seq<char>, Seq<char>>::empty(),
            }),
    {
        Renderer { templates_dir, components_dir, file_extension, components: StrMap::new() }
    }

    /// Store a component's content under its file name, for `component:`
    /// directives to inline.
    pub fn add_component(&mut self, name: String, content: String)
        ensures
            final(self)@ == (RendererS {
                components: old(self)@.components.insert(name@, content@),
                ..old(self)@
            }),
    {
        self.components.insert(name, content);
    }

    /// Join two path pieces, collapsing or supplying the `/` at the seam.
    pub fn concat_path(path1: &String, path2: &String) -> (r: String)
        ensures
            r@ == concat_path_spec(path1@, path2@),
    {
        let c1 = to_char_vec(path1.as_str());
        let c2 = to_char_vec(path2.as_str());
        let e1 = c1.len() > 0 && c1[c1.len() - 1] == '/';
        let s2 = c2.len() > 0 && c2[0] == '/';
        let mut out: Vec<char> = Vec::new();
        if e1 && s2 {
            crate::text::push_range(&mut out, &c1, 0, c1.len() - 1);
            crate::text::push_range(&mut out, &c2, 0, c2.len());
            proof {
                assert(c1@.subrange(0, c1@.len() - 1) =~= path1@.drop_last());
                assert(c2@.subrange(0, c2@.len() as int) =~= path2@);
            }
        } else if !e1 && !s2 {
            crate::text::push_range(&mut out, &c1, 0, c1.len());
            out.push('/');
            crate::text::push_range(&mut out, &c2, 0, c2.len());
            proof {
                assert(c1@.subrange(0, c1@.len() as int) =~= path1@);
                assert(c2@.subrange(0, c2@.len() as int) =~= path2@);
                assert(out@ =~= path1@ + seq!['/'] + path2@);
            }
        } else {
            crate::text::push_range(&mut out, &c1, 0, c1.len());
            crate::text::push_range(&mut out, &c2, 0, c2.len());
            proof {
                assert(c1@.subrange(0, c1@.len() as int) =~= path1@);
                assert(c2@.subrange(0, c2@.len() as int) =~= path2@);
            }
        }
        chars_to_string(&out)
    }

    /// Escape `<` and `>` as HTML entities.
    pub fn sanitize(text: &String) -> (r: String)
        ensures
            r@ == sanitize_seq(text@),
    {
        let c = to_char_vec(text.as_str());
        let s = sanitize_chars(&c);
        chars_to_string(&s)
    }

    /// Check a variable name for disallowed characters.
    pub fn check_var_name_legality(var_name: &String, dot_allowed: bool) -> (r: Result<
        (),
        ErrorKind,
    >)
        ensures
            match r {
                Ok(()) => crate::resolve::legal_name(var_name@, dot_allowed),
                Err(e) => !crate::resolve::legal_name(var_name@, dot_allowed) && e@
                    == ErrSpec::IllegalVarName(var_name@),
            },
    {
        crate::resolve::check_var_name_legality(var_name, dot_allowed)
    }

    /// Scan a template for its directive tokens, in source order.
    pub fn find_syntax_matches(template_content: &String) -> (r: Vec<SyntaxMatch>)
        ensures
            r@.len() == scan(template_content@).len(),
            forall|k: int| 0 <= k < r@.len() ==> #[trigger] r@[k]@ == scan(template_content@)[k],
    {
        let chars = to_char_vec(template_content.as_str());
        let spans = scan_spans(&chars);
        spans_to_matches(&chars, &spans)
    }

    /// Resolve a dotted path against the variable mapping.
    pub fn get_var<'a>(var_name: String, vars: &'a crate::value::Vars) -> (r: Result<
        &'a VarValue,
        ErrorKind,
    >)
        ensures
            match r {
                Ok(v) => crate::resolve::resolve(vars@, var_name@) == Result::<Val, ErrSpec>::Ok(
                    v@,
                ),
                Err(e) => crate::resolve::resolve(vars@, var_name@) == Result::<
                    Val,
                    ErrSpec,
                >::Err(e@),
            },
    {
        crate::resolve::get_var(var_name, vars)
    }
}

/// Search the tokens from `from` for the closing directive, nesting-aware.
#[verifier::loop_isolation(false)]
fn find_end_exec(
    text: &Vec<char>,
    spans: &Vec<(usize, usize)>,
    from: usize,
    opener: &str,
    closer: &str,
) -> (r: Option<usize>)
    requires
        spans@.len() == scan(text@).len(),
        forall|k: int|
            0 <= k < spans@.len() ==> {
                &&& (#[trigger] scan(text@)[k]).at == spans@[k].0
                &&& scan(text@)[k].content == text@.subrange(spans@[k].0 as int, spans@[k].1 as int)
            },
        forall|k: int|
            0 <= k < spans@.len() ==> (#[trigger] spans@[k]).0 + 6 <= spans@[k].1 <= text@.len(),
    ensures
        match r {
            Some(j) => from <= j < spans@.len() && find_end(
                scan(text@),
                from as int,
                opener@,
                closer@,
                0,
            ) == Some(j as int),
            None => find_end(scan(text@), from as int, opener@, closer@, 0) is None,
        },
{
    let ghost toks = scan(text@);
    let mut j: usize = from;
    let mut extra: usize = 0;
    while j < spans.len()
        invariant
            from <= j,
            find_end(toks, from as int, opener@, closer@, 0) == find_end(
                toks,
                j as int,
                opener@,
                closer@,
                extra as int,
            ),
            extra <= j,
        decreases spans@.len() - j,
    {
        let (a, b) = spans[j];
        if crate::text::range_starts_with_str(text, a, b, opener) {
            extra = extra + 1;
        } else if crate::text::range_eq_str(text, a, b, closer) {
            if extra == 0 {
                return Some(j);
            }
            extra = extra - 1;
        }
        j += 1;
    }
    None
}


/// One active `for` loop: where its opener stands in the token list, its
/// bounds, the snapshotted list, and the names rebound each iteration.
pub struct ForLoopInfo {
    index: usize,
    total: usize,
    current: usize,
    var_value: Vec<VarValue>,
    iter_var_name: Option<String>,
    index_var_name: Option<String>,
}

impl View for ForLoopInfo {
    type V = LoopS;

    closed spec fn view(&self) -> LoopS {
        LoopS {
            tok: self.index as int,
            total: self.total as int,
            current: self.current as int,
            items: vals_of(self.var_value@),
            iter_name: match self.iter_var_name {
                Some(s) => Some(s@),
                None => None,
            },
            index_name: match self.index_var_name {
                Some(s) => Some(s@),
                None => None,
            },
        }
    }
}

/// The models of the active loops, innermost last.
pub open spec fn loops_model(ls: Seq<ForLoopInfo>) -> Seq<LoopS> {
    Seq::new(ls.len(), |i: int| ls[i]@)
}

/// A terminal result reachable from the initial state is the render's
/// result.
proof fn lemma_finish(
    store: Map<Seq<char>, Seq<char>>,
    ext: Seq<char>,
    text: Seq<char>,
    vars0: Map<Seq<char>, Val>,
    depth: int,
    o: RunRes,
)
    requires
        scan(text).len() > 0,
        rt_from(mk_ctx(store, ext, text, depth), init_st(text, scan(text), vars0), o),
        o != RunRes::Stop,
    ensures
        renders_to(store, ext, text, vars0, depth, o),
{
    let gctx = mk_ctx(store, ext, text, depth);
    let ginit = init_st(text, scan(text), vars0);
    let f = choose|f: nat| #[trigger] run_toks(gctx, ginit, f) == o;
    assert(render_fuel(store, ext, text, vars0, depth, f) == o);
}


impl Renderer {
    /// Render a template against the variable mapping, starting at the
    /// given recursion depth (0 when absent).
    ///
    /// The result is exactly what the directive machine produces on the
    /// template's token list: literal text interleaved with variable
    /// output, conditional blocks kept or skipped, loops expanded, and
    /// stored components inlined, or the first failure the machine meets,
    /// with the mapping left as mutated so far.
    #[verifier::rlimit(100)]
    pub fn render(
        &self,
        template_contents: String,
        vars: &mut crate::value::Vars,
        recursion_layer: Option<usize>,
    ) -> (r: Result<String, ErrorKind>)
        ensures
            match r {
                Ok(s) => renders_to(
                    self@.components,
                    self@.ext,
                    template_contents@,
                    old(vars)@,
                    depth_of(recursion_layer),
                    RunRes::Done(s@, final(vars)@),
                ),
                Err(e) => renders_to(
                    self@.components,
                    self@.ext,
                    template_contents@,
                    old(vars)@,
                    depth_of(recursion_layer),
                    RunRes::Fail(e@, final(vars)@),
                ),
            },
        decreases (if 0 <= depth_of(recursion_layer) <= 6 {
            6 - depth_of(recursion_layer)
        } else {
            0
        }),
    {
        let depth: usize = match recursion_layer {
            Some(d) => d,
            None => 0,
        };
        let text = to_char_vec(template_contents.as_str());
        let spans = scan_spans(&text);
        let ghost gtoks = scan(text@);
        if spans.len() == 0 {
            proof {
                assert(render_fuel(
                    self@.components,
                    self@.ext,
                    template_contents@,
                    old(vars)@,
                    depth as int,
                    0nat,
                ) == RunRes::Done(template_contents@, old(vars)@));
            }
            return Ok(template_contents);
        }
        let ghost gctx = mk_ctx(self@.components, self@.ext, template_contents@, depth as int);
        let ghost ginit = init_st(template_contents@, gtoks, old(vars)@);
        let mut out: Vec<char> = Vec::new();
        crate::text::push_range(&mut out, &text, 0, spans[0].0);
        let mut loops: Vec<ForLoopInfo> = Vec::new();
        let mut idx: usize = 0;
        let mut iters: usize = 0;
        proof {
            assert(out@ =~= ginit.out);
            assert(loops_model(loops@) =~= ginit.loops);
        }
        loop
            invariant
                text@ == template_contents@,
                gtoks == scan(text@),
                gtoks.len() > 0,
                spans@.len() == gtoks.len(),
                forall|k: int|
                    0 <= k < spans@.len() ==> {
                        &&& (#[trigger] gtoks[k]).at == spans@[k].0
                        &&& gtoks[k].content == text@.subrange(
                            spans@[k].0 as int,
                            spans@[k].1 as int,
                        )
                    },
                forall|k: int|
                    0 <= k < spans@.len() ==> (#[trigger] spans@[k]).0 + 6 <= spans@[k].1
                        <= text@.len(),
                forall|k: int|
                    0 <= k < spans@.len() - 1 ==> (#[trigger] spans@[k]).1 <= spans@[k + 1].0,
                gctx == mk_ctx(self@.components, self@.ext, template_contents@, depth as int),
                ginit == init_st(template_contents@, gtoks, old(vars)@),
                depth as int == depth_of(recursion_layer),
                0 <= idx <= spans@.len(),
                iters <= ITER_LIMIT + 1,
                forall|k: int|
                    0 <= k < loops@.len() ==> {
                        &&& (#[trigger] loops@[k]).current < loops@[k].total
                        &&& loops@[k].total == loops@[k].var_value@.len()
                        &&& loops@[k].index < spans@.len()
                    },
                forall|o: RunRes|
                    o != RunRes::Stop ==> (#[trigger] rt_from(
                        gctx,
                        (StS {
                            cur: idx as int,
                            out: out@,
                            vars: vars@,
                            loops: loops_model(loops@),
                            iters: iters as int,
                        }),
                        o,
                    ) <==> rt_from(gctx, ginit, o)),
            decreases
                    ITER_LIMIT + 2 - iters,
                    loops_remaining(loops_model(loops@)),
                    spans@.len() - idx,
        {
            proof {
                lemma_remaining_nonneg(loops_model(loops@));
            }
            let ghost stg = StS {
                cur: idx as int,
                out: out@,
                vars: vars@,
                loops: loops_model(loops@),
                iters: iters as int,
            };
            if idx == spans.len() {
                proof {
                    assert(run_toks(gctx, stg, 1nat) == RunRes::Done(out@, vars@));
                    assert(rt_from(gctx, stg, RunRes::Done(out@, vars@)));
                    lemma_finish(
                        self@.components,
                        self@.ext,
                        template_contents@,
                        old(vars)@,
                        depth as int,
                        RunRes::Done(out@, vars@),
                    );
                }
                return Ok(chars_to_string(&out));
            }
            if iters > ITER_LIMIT {
                proof {
                    assert(step1(gctx, stg) == StepS::Fail(ErrSpec::IterationLimit, vars@));
                    lemma_step_fail(gctx, stg, ErrSpec::IterationLimit, vars@);
                    lemma_finish(
                        self@.components,
                        self@.ext,
                        template_contents@,
                        old(vars)@,
                        depth as int,
                        RunRes::Fail(ErrSpec::IterationLimit, vars@),
                    );
                }
                return Err(ErrorKind::IterationLimit);
            }
            let tstart = spans[idx].0;
            let tend = spans[idx].1;
            let ghost nxt: int = if idx as int == gtoks.len() - 1 {
                text@.len() as int
            } else {
                spans@[idx + 1].0 as int
            };
            let parts = crate::text::split_range(&text, tstart + 3, tend - 3, ':');
            let ghost gparts = tok_parts(gtoks[idx as int]);
            proof {
                let content = gtoks[idx as int].content;
                assert(content == text@.subrange(tstart as int, tend as int));
                assert(content.subrange(3, content.len() - 3) =~= text@.subrange(
                    tstart + 3,
                    tend - 3,
                ));
                assert(gparts == split_on(text@.subrange(tstart + 3, tend - 3), ':'));
                assert(gparts.len() == parts@.len());
                crate::text::lemma_split_on_len(text@.subrange(tstart + 3, tend - 3), ':');
                assert(crate::machine::gap(gctx, idx as int) == text@.subrange(tend as int, nxt));
            }
            if parts.len() < 1 {
                let e = ErrorKind::BadArgument(String::from_str("An empty '[[ ]]' is not valid"));
                proof {
                    assert(step1(gctx, stg) == StepS::Fail(e@, vars@));
                    lemma_step_fail(gctx, stg, e@, vars@);
                    lemma_finish(
                        self@.components,
                        self@.ext,
                        template_contents@,
                        old(vars)@,
                        depth as int,
                        RunRes::Fail(e@, vars@),
                    );
                }
                return Err(e);
            }
            if crate::text::chars_eq_str(&parts[0], "component") {
                if depth > 5 {
                    let e = ErrorKind::RecursionTooDeep;
                    proof {
                        assert(step1(gctx, stg) == StepS::Fail(e@, vars@));
                        lemma_step_fail(gctx, stg, e@, vars@);
                        lemma_finish(
                            self@.components,
                            self@.ext,
                            template_contents@,
                            old(vars)@,
                            depth as int,
                            RunRes::Fail(e@, vars@),
                        );
                    }
                    return Err(e);
                }
                if parts.len() != 2 {
                    let e = ErrorKind::BadArgument(
                        String::from_str(
                            "`component:` statement missing component name (second arg), or more than two args",
                        ),
                    );
                    proof {
                        assert(step1(gctx, stg) == StepS::Fail(e@, vars@));
                        lemma_step_fail(gctx, stg, e@, vars@);
                        lemma_finish(
                            self@.components,
                            self@.ext,
                            template_contents@,
                            old(vars)@,
                            depth as int,
                            RunRes::Fail(e@, vars@),
                        );
                    }
                    return Err(e);
                }
                let mut file_chars: Vec<char> = Vec::new();
                crate::text::push_range(&mut file_chars, &parts[1], 0, parts[1].len());
                proof {
                    assert(file_chars@ =~= gparts[1]);
                }
                let mut has_dot = false;
                let mut ci: usize = 0;
                while ci < file_chars.len()
                    invariant
                        0 <= ci <= file_chars@.len(),
                        has_dot == (exists|j: int| 0 <= j < ci && file_chars@[j] == '.'),
                    decreases file_chars@.len() - ci,
                {
                    if file_chars[ci] == '.' {
                        has_dot = true;
                    }
                    ci += 1;
                }
                proof {
                    crate::text::lemma_find_char(gparts[1], '.');
                    if has_dot {
                        assert(crate::text::find_char(gparts[1], '.') != -1);
                    } else {
                        if crate::text::find_char(gparts[1], '.') != -1 {
                            assert(gparts[1][crate::text::find_char(gparts[1], '.')] == '.');
                        }
                    }
                }
                if !has_dot {
                    let ext_chars = to_char_vec(self.file_extension.get_string_ref().as_str());
                    crate::text::push_range(&mut file_chars, &ext_chars, 0, ext_chars.len());
                    proof {
                        assert(ext_chars@.subrange(0, ext_chars@.len() as int) =~= ext_chars@);
                        assert(file_chars@ == gparts[1] + self@.ext);
                    }
                }
                let ghost gfile: Seq<char> = if crate::text::find_char(gparts[1], '.') == -1 {
                    gparts[1] + gctx.ext
                } else {
                    gparts[1]
                };
                proof {
                    assert(file_chars@ == gfile);
                }
                let file = chars_to_string(&file_chars);
                let looked = self.components.get(&file);
                if looked.is_none() {
                    let e = ErrorKind::ComponentNotFound(file);
                    proof {
                        assert(step1(gctx, stg) == StepS::Fail(e@, vars@));
                        lemma_step_fail(gctx, stg, e@, vars@);
                        lemma_finish(
                            self@.components,
                            self@.ext,
                            template_contents@,
                            old(vars)@,
                            depth as int,
                            RunRes::Fail(e@, vars@),
                        );
                    }
                    return Err(e);
                }
                let content = looked.unwrap().clone();
                proof {
                    assert(gctx.store.contains_key(gfile) && gctx.store[gfile] == content@);
                    assert(step1(gctx, stg) == StepS::Comp(gfile, stg));
                }
                let sub = self.render(content, vars, Some(depth + 1));
                match sub {
                    Err(e) => {
                        proof {
                            lemma_comp_fail(gctx, stg, gfile, e@, vars@);
                            lemma_finish(
                                self@.components,
                                self@.ext,
                                template_contents@,
                                old(vars)@,
                                depth as int,
                                RunRes::Fail(e@, vars@),
                            );
                        }
                        return Err(e);
                    },
                    Ok(spliced) => {
                        proof {
                            lemma_comp_ok(gctx, stg, gfile, spliced@, vars@);
                        }
                        let schars = to_char_vec(spliced.as_str());
                        crate::text::push_range(&mut out, &schars, 0, schars.len());
                        if idx == spans.len() - 1 {
                            crate::text::push_range(&mut out, &text, tend, text.len());
                        } else {
                            crate::text::push_range(&mut out, &text, tend, spans[idx + 1].0);
                        }
                        proof {
                            assert(schars@.subrange(0, schars@.len() as int) =~= spliced@);
                            let nst = adv(gctx, stg, spliced@, vars@, stg.loops);
                            assert(out@ =~= stg.out + spliced@ + crate::machine::gap(
                                gctx,
                                stg.cur,
                            ));
                            assert(nst.out == out@);
                        }
                        idx += 1;
                        iters += 1;
                        proof {
                            let nst = adv(gctx, stg, spliced@, vars@, stg.loops);
                            let ncst = StS {
                                cur: idx as int,
                                out: out@,
                                vars: vars@,
                                loops: loops_model(loops@),
                                iters: iters as int,
                            };
                            assert(ncst == nst);
                            assert forall|o: RunRes| o != RunRes::Stop implies (#[trigger] rt_from(
                                gctx,
                                ncst,
                                o,
                            ) <==> rt_from(gctx, ginit, o)) by {
                                assert(rt_from(gctx, nst, o) <==> rt_from(gctx, stg, o));
                            }
                        }
                    },
                }
            } else if crate::text::chars_eq_str(&parts[0], "for") {
                let mut active = false;
                if loops.len() > 0 {
                    if loops[loops.len() - 1].index == idx {
                        active = true;
                    }
                }
                if active {
                    if idx == spans.len() - 1 {
                        crate::text::push_range(&mut out, &text, tend, text.len());
                    } else {
                        crate::text::push_range(&mut out, &text, tend, spans[idx + 1].0);
                    }
                    idx += 1;
                    iters += 1;
                    proof {
                        let nst = adv(gctx, stg, Seq::empty(), stg.vars, stg.loops);
                        assert(out@ =~= stg.out + Seq::<char>::empty() + crate::machine::gap(
                            gctx,
                            stg.cur,
                        ));
                        assert(step1(gctx, stg) == StepS::Next(nst));
                        lemma_step_next(gctx, stg, nst);
                        let ncst = StS {
                            cur: idx as int,
                            out: out@,
                            vars: vars@,
                            loops: loops_model(loops@),
                            iters: iters as int,
                        };
                        assert(ncst == nst);
                        assert forall|o: RunRes| o != RunRes::Stop implies (#[trigger] rt_from(
                            gctx,
                            ncst,
                            o,
                        ) <==> rt_from(gctx, ginit, o)) by {
                            assert(rt_from(gctx, nst, o) <==> rt_from(gctx, stg, o));
                        }
                    }
                } else {
                    if parts.len() < 2 {
                        let e = ErrorKind::BadArgument(
                            String::from_str(
                                "`for:` statement missing variable name to loop over (second arg)",
                            ),
                        );
                        proof {
                            assert(step1(gctx, stg) == StepS::Fail(e@, vars@));
                            lemma_step_fail(gctx, stg, e@, vars@);
                            lemma_finish(
                                self@.components,
                                self@.ext,
                                template_contents@,
                                old(vars)@,
                                depth as int,
                                RunRes::Fail(e@, vars@),
                            );
                        }
                        return Err(e);
                    }
                    let var_name = chars_to_string(&parts[1]);
                    let ghost gitems: Seq<Val> = match crate::resolve::resolve(
                        stg.vars,
                        gparts[1],
                    ) {
                        Result::Ok(v) => v->List_0,
                        Result::Err(_) => Seq::empty(),
                    };
                    let mut snapshot: Vec<VarValue>;
                    match crate::resolve::get_var(var_name, &*vars) {
                        Err(e) => {
                            proof {
                                assert(step1(gctx, stg) == StepS::Fail(e@, vars@));
                                lemma_step_fail(gctx, stg, e@, vars@);
                                lemma_finish(
                                    self@.components,
                                    self@.ext,
                                    template_contents@,
                                    old(vars)@,
                                    depth as int,
                                    RunRes::Fail(e@, vars@),
                                );
                            }
                            return Err(e);
                        },
                        Ok(v) => match v {
                            VarValue::List(items) => {
                                snapshot = crate::value::clone_list(items);
                                proof {
                                    crate::value::lemma_vals_of(items@);
                                    crate::value::lemma_vals_of(snapshot@);
                                    assert(val_of(*v) == Val::List(vals_of(items@)));
                                    assert(vals_of(snapshot@) =~= gitems);
                                }
                            },
                            _ => {
                                let e = ErrorKind::BadArgument(
                                    String::from_str(
                                        "variable being looped over in `for:` statement is not a vector",
                                    ),
                                );
                                proof {
                                    assert(step1(gctx, stg) == StepS::Fail(e@, vars@));
                                    lemma_step_fail(gctx, stg, e@, vars@);
                                    lemma_finish(
                                        self@.components,
                                        self@.ext,
                                        template_contents@,
                                        old(vars)@,
                                        depth as int,
                                        RunRes::Fail(e@, vars@),
                                    );
                                }
                                return Err(e);
                            },
                        },
                    }
                    let mut iter_name_opt: Option<String> = None;
                    if parts.len() >= 3 {
                        let nm_s = chars_to_string(&parts[2]);
                        if let Err(e) = crate::resolve::check_var_name_legality(&nm_s, false) {
                            proof {
                                assert(step1(gctx, stg) == StepS::Fail(e@, vars@));
                                lemma_step_fail(gctx, stg, e@, vars@);
                                lemma_finish(
                                    self@.components,
                                    self@.ext,
                                    template_contents@,
                                    old(vars)@,
                                    depth as int,
                                    RunRes::Fail(e@, vars@),
                                );
                            }
                            return Err(e);
                        }
                        if snapshot.len() > 0 {
                            let nm_s2 = chars_to_string(&parts[2]);
                            let v0 = crate::value::clone_value(&snapshot[0]);
                            vars.insert(nm_s2, v0);
                        }
                        iter_name_opt = Some(nm_s);
                    }
                    let mut index_name_opt: Option<String> = None;
                    if parts.len() >= 4 {
                        let nm_s = chars_to_string(&parts[3]);
                        if let Err(e) = crate::resolve::check_var_name_legality(&nm_s, false) {
                            proof {
                                assert(step1(gctx, stg) == StepS::Fail(e@, vars@));
                                lemma_step_fail(gctx, stg, e@, vars@);
                                lemma_finish(
                                    self@.components,
                                    self@.ext,
                                    template_contents@,
                                    old(vars)@,
                                    depth as int,
                                    RunRes::Fail(e@, vars@),
                                );
                            }
                            return Err(e);
                        }
                        if snapshot.len() > 0 {
                            let nm_s2 = chars_to_string(&parts[3]);
                            vars.insert(nm_s2, VarValue::U32(0));
                        }
                        index_name_opt = Some(nm_s);
                    }
                    if parts.len() >= 5 {
                        let nm_s = chars_to_string(&parts[4]);
                        if let Err(e) = crate::resolve::check_var_name_legality(&nm_s, false) {
                            proof {
                                assert(step1(gctx, stg) == StepS::Fail(e@, vars@));
                                lemma_step_fail(gctx, stg, e@, vars@);
                                lemma_finish(
                                    self@.components,
                                    self@.ext,
                                    template_contents@,
                                    old(vars)@,
                                    depth as int,
                                    RunRes::Fail(e@, vars@),
                                );
                            }
                            return Err(e);
                        }
                        if snapshot.len() > 0 {
                            let mx = (((snapshot.len() - 1) as u64) % 0x1_0000_0000u64) as u32;
                            proof {
                                assert(mx == crate::machine::u32_wrap(gitems.len() - 1));
                            }
                            vars.insert(nm_s, VarValue::U32(mx));
                        }
                    }
                    let ghost gvars3: Map<Seq<char>, Val> = vars@;
                    if snapshot.len() == 0 {
                        match find_end_exec(&text, &spans, idx + 1, "[[ for:", "[[ endfor ]]") {
                            None => {
                                let e = ErrorKind::MissingEndFor;
                                proof {
                                    assert(step1(gctx, stg) == StepS::Fail(e@, vars@));
                                    lemma_step_fail(gctx, stg, e@, vars@);
                                    lemma_finish(
                                        self@.components,
                                        self@.ext,
                                        template_contents@,
                                        old(vars)@,
                                        depth as int,
                                        RunRes::Fail(e@, vars@),
                                    );
                                }
                                return Err(e);
                            },
                            Some(j) => {
                                if j == spans.len() - 1 {
                                    crate::text::push_range(&mut out, &text, spans[j].1, text.len());
                                } else {
                                    crate::text::push_range(
                                        &mut out,
                                        &text,
                                        spans[j].1,
                                        spans[j + 1].0,
                                    );
                                }
                                idx = j + 1;
                                proof {
                                    let nst = StS {
                                        cur: j + 1,
                                        out: stg.out + crate::machine::gap(gctx, j as int),
                                        vars: gvars3,
                                        loops: stg.loops,
                                        iters: stg.iters,
                                    };
                                    assert(out@ =~= stg.out + crate::machine::gap(gctx, j as int));
                                    assert(step1(gctx, stg) == StepS::Next(nst));
                                    lemma_step_next(gctx, stg, nst);
                                    let ncst = StS {
                                        cur: idx as int,
                                        out: out@,
                                        vars: vars@,
                                        loops: loops_model(loops@),
                                        iters: iters as int,
                                    };
                                    assert(ncst == nst);
                                    assert forall|o: RunRes| o != RunRes::Stop implies (
                                    #[trigger] rt_from(gctx, ncst, o) <==> rt_from(
                                        gctx,
                                        ginit,
                                        o,
                                    )) by {
                                        assert(rt_from(gctx, nst, o) <==> rt_from(gctx, stg, o));
                                    }
                                }
                            },
                        }
                    } else {
                        let lp = ForLoopInfo {
                            index: idx,
                            total: snapshot.len(),
                            current: 0,
                            var_value: snapshot,
                            iter_var_name: iter_name_opt,
                            index_var_name: index_name_opt,
                        };
                        loops.push(lp);
                        if idx == spans.len() - 1 {
                            crate::text::push_range(&mut out, &text, tend, text.len());
                        } else {
                            crate::text::push_range(&mut out, &text, tend, spans[idx + 1].0);
                        }
                        idx += 1;
                        iters += 1;
                        proof {
                            let glp = LoopS {
                                tok: stg.cur,
                                total: gitems.len() as int,
                                current: 0,
                                items: gitems,
                                iter_name: if gparts.len() >= 3 {
                                    Some(gparts[2])
                                } else {
                                    None
                                },
                                index_name: if gparts.len() >= 4 {
                                    Some(gparts[3])
                                } else {
                                    None
                                },
                            };
                            assert(loops@.last()@ == glp);
                            assert(loops_model(loops@) =~= stg.loops.push(glp));
                            let nst = adv(gctx, stg, Seq::empty(), gvars3, stg.loops.push(glp));
                            assert(out@ =~= stg.out + Seq::<char>::empty() + crate::machine::gap(
                                gctx,
                                stg.cur,
                            ));
                            assert(step1(gctx, stg) == StepS::Next(nst));
                            lemma_step_next(gctx, stg, nst);
                            let ncst = StS {
                                cur: idx as int,
                                out: out@,
                                vars: vars@,
                                loops: loops_model(loops@),
                                iters: iters as int,
                            };
                            assert(ncst == nst);
                            assert forall|o: RunRes| o != RunRes::Stop implies (#[trigger] rt_from(
                                gctx,
                                ncst,
                                o,
                            ) <==> rt_from(gctx, ginit, o)) by {
                                assert(rt_from(gctx, nst, o) <==> rt_from(gctx, stg, o));
                            }
                        }
                    }
                }
            } else if crate::text::chars_eq_str(&parts[0], "endfor") {
                if loops.len() == 0 {
                    let e = ErrorKind::BadArgument(
                        String::from_str("`endfor` without an open `for:` block"),
                    );
                    proof {
                        assert(step1(gctx, stg) == StepS::Fail(e@, vars@));
                        lemma_step_fail(gctx, stg, e@, vars@);
                        lemma_finish(
                            self@.components,
                            self@.ext,
                            template_contents@,
                            old(vars)@,
                            depth as int,
                            RunRes::Fail(e@, vars@),
                        );
                    }
                    return Err(e);
                }
                let mut top = match loops.pop() {
                    Some(t) => t,
                    None => vstd::pervasive::unreached(),
                };
                proof {
                    assert(loops_model(loops@) =~= stg.loops.drop_last());
                    assert(top@ == stg.loops.last());
                }
                if top.current + 1 >= top.total {
                    if idx == spans.len() - 1 {
                        crate::text::push_range(&mut out, &text, tend, text.len());
                    } else {
                        crate::text::push_range(&mut out, &text, tend, spans[idx + 1].0);
                    }
                    idx += 1;
                    iters += 1;
                    proof {
                        let nst = adv(gctx, stg, Seq::empty(), stg.vars, stg.loops.drop_last());
                        assert(out@ =~= stg.out + Seq::<char>::empty() + crate::machine::gap(
                            gctx,
                            stg.cur,
                        ));
                        assert(step1(gctx, stg) == StepS::Next(nst));
                        lemma_step_next(gctx, stg, nst);
                        let ncst = StS {
                            cur: idx as int,
                            out: out@,
                            vars: vars@,
                            loops: loops_model(loops@),
                            iters: iters as int,
                        };
                        assert(ncst == nst);
                        assert forall|o: RunRes| o != RunRes::Stop implies (#[trigger] rt_from(
                            gctx,
                            ncst,
                            o,
                        ) <==> rt_from(gctx, ginit, o)) by {
                            assert(rt_from(gctx, nst, o) <==> rt_from(gctx, stg, o));
                        }
                        assert(loops_remaining(stg.loops) == loops_remaining(stg.loops.drop_last())
                            + (stg.loops.last().total - stg.loops.last().current));
                        lemma_remaining_nonneg(loops_model(loops@));
                    }
                } else {
                    let c2 = top.current + 1;
                    match &top.iter_var_name {
                        Some(nm) => {
                            let vv = crate::value::clone_value(&top.var_value[c2]);
                            proof {
                                crate::value::lemma_vals_of(top.var_value@);
                            }
                            vars.insert(nm.clone(), vv);
                        },
                        None => {},
                    }
                    match &top.index_var_name {
                        Some(nm) => {
                            let iv = (((c2 as u64) % 0x1_0000_0000u64) as u32);
                            proof {
                                assert(iv == crate::machine::u32_wrap(top@.current + 1));
                            }
                            vars.insert(nm.clone(), VarValue::U32(iv));
                        },
                        None => {},
                    }
                    let jump_to = top.index;
                    top.current = c2;
                    loops.push(top);
                    idx = jump_to;
                    proof {
                        let otop = stg.loops.last();
                        let ntop = LoopS {
                            tok: otop.tok,
                            total: otop.total,
                            current: otop.current + 1,
                            items: otop.items,
                            iter_name: otop.iter_name,
                            index_name: otop.index_name,
                        };
                        assert(loops@.last()@ == ntop);
                        assert(loops_model(loops@) =~= stg.loops.update(
                            stg.loops.len() - 1,
                            ntop,
                        ));
                        let nst = StS {
                            cur: otop.tok,
                            out: stg.out,
                            vars: vars@,
                            loops: stg.loops.update(stg.loops.len() - 1, ntop),
                            iters: stg.iters,
                        };
                        assert(step1(gctx, stg) == StepS::Next(nst));
                        lemma_step_next(gctx, stg, nst);
                        let ncst = StS {
                            cur: idx as int,
                            out: out@,
                            vars: vars@,
                            loops: loops_model(loops@),
                            iters: iters as int,
                        };
                        assert(ncst == nst);
                        assert forall|o: RunRes| o != RunRes::Stop implies (#[trigger] rt_from(
                            gctx,
                            ncst,
                            o,
                        ) <==> rt_from(gctx, ginit, o)) by {
                            assert(rt_from(gctx, nst, o) <==> rt_from(gctx, stg, o));
                        }
                        assert(loops_remaining(stg.loops) == loops_remaining(stg.loops.drop_last())
                            + (otop.total - otop.current));
                        assert(loops_model(loops@).drop_last() =~= stg.loops.drop_last());
                        assert(loops_remaining(loops_model(loops@)) == loops_remaining(
                            stg.loops.drop_last(),
                        ) + (ntop.total - ntop.current));
                        lemma_remaining_nonneg(loops_model(loops@));
                    }
                }
            } else if crate::text::chars_eq_str(&parts[0], "if") {
                if parts.len() < 2 {
                    let e = ErrorKind::BadArgument(
                        String::from_str("`if:` statement missing variable name (second arg)"),
                    );
                    proof {
                        assert(step1(gctx, stg) == StepS::Fail(e@, vars@));
                        lemma_step_fail(gctx, stg, e@, vars@);
                        lemma_finish(
                            self@.components,
                            self@.ext,
                            template_contents@,
                            old(vars)@,
                            depth as int,
                            RunRes::Fail(e@, vars@),
                        );
                    }
                    return Err(e);
                }
                let var_name = chars_to_string(&parts[1]);
                let cond: bool;
                match crate::resolve::get_var(var_name, &*vars) {
                    Err(e) => {
                        proof {
                            assert(step1(gctx, stg) == StepS::Fail(e@, vars@));
                            lemma_step_fail(gctx, stg, e@, vars@);
                            lemma_finish(
                                self@.components,
                                self@.ext,
                                template_contents@,
                                old(vars)@,
                                depth as int,
                                RunRes::Fail(e@, vars@),
                            );
                        }
                        return Err(e);
                    },
                    Ok(v) => {
                        if parts.len() == 2 {
                            cond = v.is_truthy();
                        } else if parts.len() == 3 {
                            let neg = parts[2].len() > 0 && parts[2][0] == '!';
                            let mut n2chars: Vec<char> = Vec::new();
                            if neg {
                                crate::text::push_range(&mut n2chars, &parts[2], 1, parts[2].len());
                            } else {
                                crate::text::push_range(&mut n2chars, &parts[2], 0, parts[2].len());
                            }
                            proof {
                                if neg {
                                    assert(n2chars@ =~= gparts[2].subrange(
                                        1,
                                        gparts[2].len() as int,
                                    ));
                                } else {
                                    assert(n2chars@ =~= gparts[2]);
                                }
                            }
                            let name2 = chars_to_string(&n2chars);
                            match crate::resolve::get_var(name2, &*vars) {
                                Err(e) => {
                                    proof {
                                        assert(step1(gctx, stg) == StepS::Fail(e@, vars@));
                                        lemma_step_fail(gctx, stg, e@, vars@);
                                        lemma_finish(
                                            self@.components,
                                            self@.ext,
                                            template_contents@,
                                            old(vars)@,
                                            depth as int,
                                            RunRes::Fail(e@, vars@),
                                        );
                                    }
                                    return Err(e);
                                },
                                Ok(v2) => {
                                    let same = crate::value::eq_value(v, v2);
                                    cond = same != neg;
                                },
                            }
                        } else {
                            let e = ErrorKind::BadArgument(
                                String::from_str("`if:` statement cannot have more than 3 args"),
                            );
                            proof {
                                assert(step1(gctx, stg) == StepS::Fail(e@, vars@));
                                lemma_step_fail(gctx, stg, e@, vars@);
                                lemma_finish(
                                    self@.components,
                                    self@.ext,
                                    template_contents@,
                                    old(vars)@,
                                    depth as int,
                                    RunRes::Fail(e@, vars@),
                                );
                            }
                            return Err(e);
                        }
                    },
                }
                if cond {
                    if idx == spans.len() - 1 {
                        crate::text::push_range(&mut out, &text, tend, text.len());
                    } else {
                        crate::text::push_range(&mut out, &text, tend, spans[idx + 1].0);
                    }
                    idx += 1;
                    iters += 1;
                    proof {
                        let nst = adv(gctx, stg, Seq::empty(), stg.vars, stg.loops);
                        assert(out@ =~= stg.out + Seq::<char>::empty() + crate::machine::gap(
                            gctx,
                            stg.cur,
                        ));
                        assert(step1(gctx, stg) == StepS::Next(nst));
                        lemma_step_next(gctx, stg, nst);
                        let ncst = StS {
                            cur: idx as int,
                            out: out@,
                            vars: vars@,
                            loops: loops_model(loops@),
                            iters: iters as int,
                        };
                        assert(ncst == nst);
                        assert forall|o: RunRes| o != RunRes::Stop implies (#[trigger] rt_from(
                            gctx,
                            ncst,
                            o,
                        ) <==> rt_from(gctx, ginit, o)) by {
                            assert(rt_from(gctx, nst, o) <==> rt_from(gctx, stg, o));
                        }
                    }
                } else {
                    match find_end_exec(&text, &spans, idx + 1, "[[ if:", "[[ endif ]]") {
                        None => {
                            let e = ErrorKind::MissingEndIf;
                            proof {
                                assert(step1(gctx, stg) == StepS::Fail(e@, vars@));
                                lemma_step_fail(gctx, stg, e@, vars@);
                                lemma_finish(
                                    self@.components,
                                    self@.ext,
                                    template_contents@,
                                    old(vars)@,
                                    depth as int,
                                    RunRes::Fail(e@, vars@),
                                );
                            }
                            return Err(e);
                        },
                        Some(j) => {
                            idx = j;
                            proof {
                                let nst = StS {
                                    cur: j as int,
                                    out: stg.out,
                                    vars: stg.vars,
                                    loops: stg.loops,
                                    iters: stg.iters,
                                };
                                assert(step1(gctx, stg) == StepS::Next(nst));
                                lemma_step_next(gctx, stg, nst);
                                let ncst = StS {
                                    cur: idx as int,
                                    out: out@,
                                    vars: vars@,
                                    loops: loops_model(loops@),
                                    iters: iters as int,
                                };
                                assert(ncst == nst);
                                assert forall|o: RunRes| o != RunRes::Stop implies (
                                #[trigger] rt_from(gctx, ncst, o) <==> rt_from(gctx, ginit, o)) by {
                                    assert(rt_from(gctx, nst, o) <==> rt_from(gctx, stg, o));
                                }
                            }
                        },
                    }
                }
            } else if crate::text::chars_eq_str(&parts[0], "endif") {
                if idx == spans.len() - 1 {
                    crate::text::push_range(&mut out, &text, tend, text.len());
                } else {
                    crate::text::push_range(&mut out, &text, tend, spans[idx + 1].0);
                }
                idx += 1;
                iters += 1;
                proof {
                    let nst = adv(gctx, stg, Seq::empty(), stg.vars, stg.loops);
                    assert(out@ =~= stg.out + Seq::<char>::empty() + crate::machine::gap(
                        gctx,
                        stg.cur,
                    ));
                    assert(step1(gctx, stg) == StepS::Next(nst));
                    lemma_step_next(gctx, stg, nst);
                    let ncst = StS {
                        cur: idx as int,
                        out: out@,
                        vars: vars@,
                        loops: loops_model(loops@),
                        iters: iters as int,
                    };
                    assert(ncst == nst);
                    assert forall|o: RunRes| o != RunRes::Stop implies (#[trigger] rt_from(
                        gctx,
                        ncst,
                        o,
                    ) <==> rt_from(gctx, ginit, o)) by {
                        assert(rt_from(gctx, nst, o) <==> rt_from(gctx, stg, o));
                    }
                }
            } else {
                let is_html = crate::text::chars_eq_str(&parts[0], "html");
                if is_html && parts.len() != 2 {
                    let e = ErrorKind::BadArgument(
                        String::from_str(
                            "`html:` statement missing variable name, the second arg, or has more than two args",
                        ),
                    );
                    proof {
                        assert(step1(gctx, stg) == StepS::Fail(e@, vars@));
                        lemma_step_fail(gctx, stg, e@, vars@);
                        lemma_finish(
                            self@.components,
                            self@.ext,
                            template_contents@,
                            old(vars)@,
                            depth as int,
                            RunRes::Fail(e@, vars@),
                        );
                    }
                    return Err(e);
                }
                let var_name = if is_html {
                    chars_to_string(&parts[1])
                } else {
                    chars_to_string(&parts[0])
                };
                match crate::resolve::get_var(var_name, &*vars) {
                    Err(e) => {
                        proof {
                            assert(step1(gctx, stg) == StepS::Fail(e@, vars@));
                            lemma_step_fail(gctx, stg, e@, vars@);
                            lemma_finish(
                                self@.components,
                                self@.ext,
                                template_contents@,
                                old(vars)@,
                                depth as int,
                                RunRes::Fail(e@, vars@),
                            );
                        }
                        return Err(e);
                    },
                    Ok(v) => {
                        let txt = crate::value::render_text(v);
                        let ind = crate::text::measure_open_indent(&out);
                        let joined = crate::text::join_indented(&txt, ind);
                        let ghost gadd: Seq<char> = if is_html {
                            joined@
                        } else {
                            sanitize_seq(joined@)
                        };
                        if is_html {
                            crate::text::push_range(&mut out, &joined, 0, joined.len());
                        } else {
                            let san = sanitize_chars(&joined);
                            crate::text::push_range(&mut out, &san, 0, san.len());
                        }
                        if idx == spans.len() - 1 {
                            crate::text::push_range(&mut out, &text, tend, text.len());
                        } else {
                            crate::text::push_range(&mut out, &text, tend, spans[idx + 1].0);
                        }
                        idx += 1;
                        iters += 1;
                        proof {
                            let nst = adv(gctx, stg, gadd, stg.vars, stg.loops);
                            assert(out@ =~= stg.out + gadd + crate::machine::gap(gctx, stg.cur));
                            assert(step1(gctx, stg) == StepS::Next(nst));
                            lemma_step_next(gctx, stg, nst);
                            let ncst = StS {
                                cur: idx as int,
                                out: out@,
                                vars: vars@,
                                loops: loops_model(loops@),
                                iters: iters as int,
                            };
                            assert(ncst == nst);
                            assert forall|o: RunRes| o != RunRes::Stop implies (#[trigger] rt_from(
                                gctx,
                                ncst,
                                o,
                            ) <==> rt_from(gctx, ginit, o)) by {
                                assert(rt_from(gctx, nst, o) <==> rt_from(gctx, stg, o));
                            }
                        }
                    },
                }
            }
        }
    }
}

} // verus!
