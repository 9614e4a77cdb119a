//! The value model: everything a template can reference, plus the mapping
//! from variable names to values.
use crate::text::dec_seq;
use crate::text::to_char_vec;
use crate::text::u32_chars;
use vstd::prelude::*;

verus! {

/// Mathematical model of a template value. A dictionary is modelled as its
/// entry sequence; `dict_map` gives the mapping it denotes (earliest entry
/// wins when a key repeats).
pub ghost enum Val {
    Bool(bool),
    Text(Seq<char>),
    U32(u32),
    List(Seq<Val>),
    Dict(Seq<(Seq<char>, Val)>),
}

/// A template value: booleans, text, unsigned integers, ordered lists and
/// string-keyed dictionaries.
pub enum VarValue {
    Bool(bool),
    Text(String),
    U32(u32),
    List(Vec<VarValue>),
    Dict(Vars),
}

/// The variable mapping handed to the renderer: names to values, with
/// lookups resolving to the earliest entry for a name.
pub struct Vars {
    entries: Vec<(String, VarValue)>,
}

/// The model of a `VarValue`.
pub open spec fn val_of(v: VarValue) -> Val
    decreases v,
{
    match v {
        VarValue::Bool(b) => Val::Bool(b),
        VarValue::Text(s) => Val::Text(s@),
        VarValue::U32(n) => Val::U32(n),
        VarValue::List(items) => Val::List(vals_of(items@)),
        VarValue::Dict(d) => Val::Dict(dict_entries(d)),
    }
}

/// The models of a sequence of values, elementwise.
pub open spec fn vals_of(items: Seq<VarValue>) -> Seq<Val>
    decreases items,
{
    if items.len() == 0 {
        Seq::empty()
    } else {
        seq![val_of(items[0])] + vals_of(items.drop_first())
    }
}

/// The modelled entry sequence of a dictionary, in storage order.
pub closed spec fn dict_entries(d: Vars) -> Seq<(Seq<char>, Val)>
    decreases d,
    via dict_entries_decreases
{
    entry_models(d.entries@)
}

/// The models of raw dictionary entries, elementwise.
pub open spec fn entry_models(es: Seq<(String, VarValue)>) -> Seq<(Seq<char>, Val)>
    decreases es,
{
    if es.len() == 0 {
        Seq::empty()
    } else {
        seq![(es[0].0@, val_of(es[0].1))] + entry_models(es.drop_first())
    }
}

#[via_fn]
proof fn dict_entries_decreases(d: Vars) {
    assert(decreases_to!(d => d.entries));
    assert(decreases_to!(d.entries => d.entries@));
}

impl View for VarValue {
    type V = Val;

    open spec fn view(&self) -> Val {
        val_of(*self)
    }
}

/// The mapping denoted by a dictionary's entry sequence: the earliest entry
/// wins when a key repeats.
pub open spec fn dict_map(es: Seq<(Seq<char>, Val)>) -> Map<Seq<char>, Val>
    decreases es.len(),
{
    if es.len() == 0 {
        Map::empty()
    } else {
        dict_map(es.drop_first()).insert(es[0].0, es[0].1)
    }
}

impl View for Vars {
    type V = Map<Seq<char>, Val>;

    open spec fn view(&self) -> Map<Seq<char>, Val> {
        dict_map(dict_entries(*self))
    }
}

/// `vals_of` maps the model over the sequence, elementwise.
pub proof fn lemma_vals_of(items: Seq<VarValue>)
    ensures
        vals_of(items).len() == items.len(),
        forall|i: int| 0 <= i < items.len() ==> vals_of(items)[i] == val_of(items[i]),
    decreases items.len(),
{
    if items.len() > 0 {
        lemma_vals_of(items.drop_first());
    }
}

/// `entry_models` maps the model over the entries, elementwise.
pub proof fn lemma_entry_models(es: Seq<(String, VarValue)>)
    ensures
        entry_models(es).len() == es.len(),
        forall|i: int|
            0 <= i < es.len() ==> entry_models(es)[i] == (es[i].0@, val_of(es[i].1)),
    decreases es.len(),
{
    if es.len() > 0 {
        lemma_entry_models(es.drop_first());
    }
}

/// First-match lookup over a modelled entry sequence.
pub open spec fn dlookup(es: Seq<(Seq<char>, Val)>, k: Seq<char>) -> Option<Val>
    decreases es.len(),
{
    if es.len() == 0 {
        None
    } else if es[0].0 == k {
        Some(es[0].1)
    } else {
        dlookup(es.drop_first(), k)
    }
}

/// `dlookup` decides membership and value in the denoted mapping.
pub proof fn lemma_dlookup_dict_map(es: Seq<(Seq<char>, Val)>, k: Seq<char>)
    ensures
        dict_map(es).contains_key(k) == (dlookup(es, k) is Some),
        dlookup(es, k) is Some ==> dict_map(es)[k] == dlookup(es, k)->0,
    decreases es.len(),
{
    if es.len() > 0 {
        lemma_dlookup_dict_map(es.drop_first(), k);
    }
}

/// A first occurrence of a key settles the lookup.
pub proof fn lemma_dlookup_at(es: Seq<(Seq<char>, Val)>, k: Seq<char>, i: int)
    requires
        0 <= i < es.len(),
        es[i].0 == k,
        forall|j: int| 0 <= j < i ==> es[j].0 != k,
    ensures
        dlookup(es, k) == Some(es[i].1),
    decreases i,
{
    if i > 0 {
        lemma_dlookup_at(es.drop_first(), k, i - 1);
    }
}

/// A key occurring nowhere settles the lookup.
pub proof fn lemma_dlookup_none(es: Seq<(Seq<char>, Val)>, k: Seq<char>)
    requires
        forall|j: int| 0 <= j < es.len() ==> es[j].0 != k,
    ensures
        dlookup(es, k) is None,
    decreases es.len(),
{
    if es.len() > 0 {
        lemma_dlookup_none(es.drop_first(), k);
    }
}

/// Truthiness of a value: booleans are themselves, text is truthy when
/// non-empty, numbers when nonzero, lists and dictionaries when non-empty.
pub open spec fn truthy(v: Val) -> bool {
    match v {
        Val::Bool(b) => b,
        Val::Text(s) => s.len() != 0,
        Val::U32(n) => n != 0,
        Val::List(items) => items.len() > 0,
        Val::Dict(es) => es.len() > 0,
    }
}

impl VarValue {
    /// Whether this value passes a one-argument `if:` test.
    ///
    /// Text is truthy exactly when it is non-empty; this is the documented
    /// (conventional) reading of text truthiness.
    pub fn is_truthy(&self) -> (r: bool)
        ensures
            r == truthy(self@),
    {
        match self {
            VarValue::Bool(b) => *b,
            VarValue::Text(s) => {
                proof {
                    assert(self@ matches Val::Text(t) && t == s@);
                }
                !s.as_str().is_empty()
            },
            VarValue::U32(n) => *n != 0,
            VarValue::List(items) => {
                proof {
                    lemma_vals_of(items@);
                }
                items.len() > 0
            },
            VarValue::Dict(d) => {
                proof {
                    d.lemma_entries_model();
                }
                d.entry_count() > 0
            },
        }
    }
}

impl Vars {
    /// The number of stored entries (shadowed duplicates included).
    pub fn entry_count(&self) -> (n: usize)
        ensures
            n == dict_entries(*self).len(),
    {
        proof {
            self.lemma_entries_model();
        }
        self.entries.len()
    }

    /// The stored entries, seen through the model.
    proof fn lemma_entries_model(&self)
        ensures
            dict_entries(*self).len() == self.entries@.len(),
            forall|i: int|
                0 <= i < self.entries@.len() ==> dict_entries(*self)[i] == (
                self.entries@[i].0@,
                val_of(self.entries@[i].1),
                ),
            self@ == dict_map(dict_entries(*self)),
    {
        lemma_entry_models(self.entries@);
    }

    /// An empty variable mapping.
    pub fn new() -> (r: Vars)
        ensures
            r@ == Map::<Seq<char>, Val>::empty(),
            dict_entries(r).len() == 0,
    {
        let r = Vars { entries: Vec::new() };
        proof {
            r.lemma_entries_model();
            assert(dict_entries(r) =~= Seq::<(Seq<char>, Val)>::empty());
        }
        r
    }

    /// Look a name up; the earliest entry for the name answers.
    pub fn get(&self, name: &String) -> (r: Option<&VarValue>)
        ensures
            match r {
                Some(v) => self@.contains_key(name@) && self@[name@] == v@,
                None => !self@.contains_key(name@),
            },
    {
        proof {
            self.lemma_entries_model();
        }
        let ghost ms = dict_entries(*self);
        let mut i: usize = 0;
        while i < self.entries.len()
            invariant
                0 <= i <= self.entries@.len(),
                ms == dict_entries(*self),
                ms.len() == self.entries@.len(),
                forall|j: int|
                    0 <= j < self.entries@.len() ==> ms[j] == (
                    self.entries@[j].0@,
                    val_of(self.entries@[j].1),
                    ),
                self@ == dict_map(ms),
                forall|j: int| 0 <= j < i ==> ms[j].0 != name@,
            decreases self.entries@.len() - i,
        {
            if self.entries[i].0 == *name {
                proof {
                    lemma_dlookup_at(ms, name@, i as int);
                    lemma_dlookup_dict_map(ms, name@);
                }
                return Some(&self.entries[i].1);
            }
            i += 1;
        }
        proof {
            lemma_dlookup_none(ms, name@);
            lemma_dlookup_dict_map(ms, name@);
        }
        None
    }

    /// Bind a name to a value, shadowing any earlier binding.
    pub fn insert(&mut self, name: String, value: VarValue)
        ensures
            final(self)@ == old(self)@.insert(name@, val_of(value)),
    {
        proof {
            old(self).lemma_entries_model();
        }
        let ghost old_ms = dict_entries(*old(self));
        let ghost vm = val_of(value);
        self.entries.insert(0, (name, value));
        proof {
            self.lemma_entries_model();
            let ms = dict_entries(*self);
            assert(ms.drop_first() =~= old_ms);
            assert(self@ == dict_map(ms.drop_first()).insert(ms[0].0, ms[0].1));
            assert(self@ =~= old(self)@.insert(ms[0].0, ms[0].1));
        }
    }
}

/// A deep copy of a value, equal to the original in the model.
#[verifier::loop_isolation(false)]
pub fn clone_value(v: &VarValue) -> (r: VarValue)
    ensures
        r@ == v@,
    decreases v,
{
    match v {
        VarValue::Bool(b) => VarValue::Bool(*b),
        VarValue::Text(s) => VarValue::Text(s.clone()),
        VarValue::U32(n) => VarValue::U32(*n),
        VarValue::List(items) => {
            let mut out: Vec<VarValue> = Vec::new();
            let mut j: usize = 0;
            while j < items.len()
                invariant
                    0 <= j <= items@.len(),
                    out@.len() == j,
                    forall|t: int| 0 <= t < j ==> #[trigger] val_of(out@[t]) == val_of(items@[t]),
                decreases items@.len() - j,
            {
                proof {
                    assert(decreases_to!(*v => *items));
                    assert(decreases_to!(*items => items@));
                    assert(decreases_to!(items@ => items@[j as int]));
                }
                let c = clone_value(&items[j]);
                out.push(c);
                j += 1;
            }
            proof {
                lemma_vals_of(out@);
                lemma_vals_of(items@);
                assert(vals_of(out@) =~= vals_of(items@));
            }
            VarValue::List(out)
        },
        VarValue::Dict(d) => {
            let mut nes: Vec<(String, VarValue)> = Vec::new();
            let mut j: usize = 0;
            while j < d.entries.len()
                invariant
                    0 <= j <= d.entries@.len(),
                    nes@.len() == j,
                    forall|t: int| 0 <= t < j ==> #[trigger] nes@[t].0@ == d.entries@[t].0@,
                    forall|t: int| 0 <= t < j ==> #[trigger] val_of(nes@[t].1) == val_of(d.entries@[t].1),
                decreases d.entries@.len() - j,
            {
                proof {
                    assert(decreases_to!(*v => *d));
                    assert(decreases_to!(*d => d.entries));
                    assert(decreases_to!(d.entries => d.entries@));
                    assert(decreases_to!(d.entries@ => d.entries@[j as int]));
                    assert(decreases_to!(d.entries@[j as int] => d.entries@[j as int].1));
                }
                let k = d.entries[j].0.clone();
                let c = clone_value(&d.entries[j].1);
                nes.push((k, c));
                j += 1;
            }
            let nd = Vars { entries: nes };
            proof {
                nd.lemma_entries_model();
                d.lemma_entries_model();
                assert(dict_entries(nd) =~= dict_entries(*d));
            }
            VarValue::Dict(nd)
        },
    }
}

/// A deep copy of a list of values, elementwise equal in the model.
#[verifier::loop_isolation(false)]
pub fn clone_list(items: &Vec<VarValue>) -> (r: Vec<VarValue>)
    ensures
        r@.len() == items@.len(),
        forall|t: int| 0 <= t < items@.len() ==> #[trigger] val_of(r@[t]) == val_of(items@[t]),
{
    let mut out: Vec<VarValue> = Vec::new();
    let mut j: usize = 0;
    while j < items.len()
        invariant
            0 <= j <= items@.len(),
            out@.len() == j,
            forall|t: int| 0 <= t < j ==> #[trigger] val_of(out@[t]) == val_of(items@[t]),
        decreases items@.len() - j,
    {
        let c = clone_value(&items[j]);
        out.push(c);
        j += 1;
    }
    out
}


/// Structural equality of value models: variant-sensitive, lists compared
/// elementwise, dictionaries compared as the mappings they denote.
pub open spec fn val_eq(a: Val, b: Val) -> bool
    decreases a, 1int, 0int,
{
    match (a, b) {
        (Val::Bool(x), Val::Bool(y)) => x == y,
        (Val::Text(x), Val::Text(y)) => x == y,
        (Val::U32(x), Val::U32(y)) => x == y,
        (Val::List(x), Val::List(y)) => x.len() == y.len() && lists_eq(x, y, 0),
        (Val::Dict(x), Val::Dict(y)) => dict_map(x).dom() == dict_map(y).dom() && dict_vals_eq(
            x,
            y,
            0,
        ),
        _ => false,
    }
}

/// Elementwise equality of two equal-length lists, from position `i` on.
pub open spec fn lists_eq(x: Seq<Val>, y: Seq<Val>, i: int) -> bool
    decreases x, 0int, x.len() - i,
{
    if i < 0 || i >= x.len() {
        true
    } else {
        val_eq(x[i], y[i]) && lists_eq(x, y, i + 1)
    }
}

/// Whether entry `i` is the first with its key.
pub open spec fn first_occ(x: Seq<(Seq<char>, Val)>, i: int) -> bool {
    forall|j: int| 0 <= j < i ==> x[j].0 != x[i].0
}

/// The check one entry of `x` contributes to dictionary equality: a first
/// occurrence must have a matching, equal value in `y`.
pub open spec fn dve_cond(x: Seq<(Seq<char>, Val)>, y: Seq<(Seq<char>, Val)>, i: int) -> bool
    decreases x, 0int, 0int,
{
    if i < 0 || i >= x.len() {
        true
    } else if first_occ(x, i) {
        match dlookup(y, x[i].0) {
            Some(v) => val_eq(x[i].1, v),
            None => false,
        }
    } else {
        true
    }
}

/// Every entry of `x` from position `i` on passes its dictionary-equality
/// check against `y`.
pub open spec fn dict_vals_eq(x: Seq<(Seq<char>, Val)>, y: Seq<(Seq<char>, Val)>, i: int) -> bool
    decreases x, 0int, x.len() - i,
{
    if i < 0 || i >= x.len() {
        true
    } else {
        dve_cond(x, y, i) && dict_vals_eq(x, y, i + 1)
    }
}

proof fn lemma_lists_eq_intro(x: Seq<Val>, y: Seq<Val>, i: int)
    requires
        forall|t: int| i <= t < x.len() ==> val_eq(x[t], y[t]),
    ensures
        lists_eq(x, y, i),
    decreases x.len() - i,
{
    if 0 <= i < x.len() {
        lemma_lists_eq_intro(x, y, i + 1);
    }
}

proof fn lemma_lists_eq_elim(x: Seq<Val>, y: Seq<Val>, i: int, j: int)
    requires
        lists_eq(x, y, i),
        0 <= i <= j < x.len(),
    ensures
        val_eq(x[j], y[j]),
    decreases j - i,
{
    if i < j {
        lemma_lists_eq_elim(x, y, i + 1, j);
    }
}

proof fn lemma_dve_intro(x: Seq<(Seq<char>, Val)>, y: Seq<(Seq<char>, Val)>, i: int)
    requires
        forall|t: int| i <= t < x.len() ==> #[trigger] dve_cond(x, y, t),
    ensures
        dict_vals_eq(x, y, i),
    decreases x.len() - i,
{
    if 0 <= i < x.len() {
        assert(dve_cond(x, y, i));
        lemma_dve_intro(x, y, i + 1);
        assert(dict_vals_eq(x, y, i + 1));
    }
}

proof fn lemma_dve_elim(x: Seq<(Seq<char>, Val)>, y: Seq<(Seq<char>, Val)>, i: int, j: int)
    requires
        dict_vals_eq(x, y, i),
        0 <= i <= j < x.len(),
    ensures
        dve_cond(x, y, j),
    decreases j - i,
{
    if i < j {
        lemma_dve_elim(x, y, i + 1, j);
    }
}

/// Any key of the denoted mapping has a first-occurrence entry.
proof fn lemma_contains_first_occ(x: Seq<(Seq<char>, Val)>, k: Seq<char>)
    requires
        dict_map(x).contains_key(k),
    ensures
        exists|i: int|
            0 <= i < x.len() && x[i].0 == k && first_occ(x, i) && #[trigger] x[i].1 == dlookup(
                x,
                k,
            )->0,
    decreases x.len(),
{
    lemma_dlookup_dict_map(x, k);
    if x[0].0 == k {
        assert(first_occ(x, 0));
    } else {
        lemma_dlookup_dict_map(x.drop_first(), k);
        lemma_contains_first_occ(x.drop_first(), k);
        let i0 = choose|i: int|
            0 <= i < x.drop_first().len() && x.drop_first()[i].0 == k && first_occ(
                x.drop_first(),
                i,
            ) && #[trigger] x.drop_first()[i].1 == dlookup(x.drop_first(), k)->0;
        assert(x[i0 + 1].0 == k);
        assert forall|j: int| 0 <= j < i0 + 1 implies (#[trigger] x[j]).0 != x[i0 + 1].0 by {
            if j > 0 {
                assert(x.drop_first()[j - 1] == x[j]);
            }
        }
        assert(first_occ(x, i0 + 1));
    }
}

/// Whether two values are structurally equal; dictionaries count as equal
/// when they denote the same mapping.
#[verifier::loop_isolation(false)]
pub fn eq_value(a: &VarValue, b: &VarValue) -> (r: bool)
    ensures
        r == val_eq(a@, b@),
    decreases a,
{
    match (a, b) {
        (VarValue::Bool(x), VarValue::Bool(y)) => *x == *y,
        (VarValue::Text(x), VarValue::Text(y)) => *x == *y,
        (VarValue::U32(x), VarValue::U32(y)) => *x == *y,
        (VarValue::List(xs), VarValue::List(ys)) => {
            proof {
                lemma_vals_of(xs@);
                lemma_vals_of(ys@);
            }
            let ghost gx = vals_of(xs@);
            let ghost gy = vals_of(ys@);
            if xs.len() != ys.len() {
                return false;
            }
            let mut i: usize = 0;
            while i < xs.len()
                invariant
                    0 <= i <= xs@.len(),
                    forall|t: int| 0 <= t < i ==> val_eq(gx[t], gy[t]),
                decreases xs@.len() - i,
            {
                proof {
                    assert(decreases_to!(*a => *xs));
                    assert(decreases_to!(*xs => xs@));
                    assert(decreases_to!(xs@ => xs@[i as int]));
                }
                if !eq_value(&xs[i], &ys[i]) {
                    proof {
                        if lists_eq(gx, gy, 0) {
                            lemma_lists_eq_elim(gx, gy, 0, i as int);
                        }
                    }
                    return false;
                }
                i += 1;
            }
            proof {
                lemma_lists_eq_intro(gx, gy, 0);
            }
            true
        },
        (VarValue::Dict(da), VarValue::Dict(db)) => {
            proof {
                da.lemma_entries_model();
                db.lemma_entries_model();
            }
            let ghost gx = dict_entries(*da);
            let ghost gy = dict_entries(*db);
            let mut i: usize = 0;
            while i < da.entries.len()
                invariant
                    0 <= i <= da.entries@.len(),
                    forall|t: int| 0 <= t < i ==> dve_cond(gx, gy, t),
                    forall|t: int|
                        0 <= t < i && first_occ(gx, t) ==> dict_map(gy).contains_key(
                            #[trigger] gx[t].0,
                        ),
                decreases da.entries@.len() - i,
            {
                // is entry i the first with its key?
                let mut j: usize = 0;
                let mut fresh: bool = true;
                while j < i
                    invariant
                        0 <= j <= i <= da.entries@.len(),
                        fresh == (forall|t: int| 0 <= t < j ==> gx[t].0 != gx[i as int].0),
                    decreases i - j,
                {
                    if da.entries[j].0 == da.entries[i].0 {
                        fresh = false;
                        proof {
                            assert(gx[j as int].0 == gx[i as int].0);
                        }
                        break ;
                    }
                    j += 1;
                }
                if fresh {
                    proof {
                        assert(first_occ(gx, i as int));
                    }
                    match db.get(&da.entries[i].0) {
                        None => {
                            proof {
                                lemma_dlookup_dict_map(gy, gx[i as int].0);
                                if dict_vals_eq(gx, gy, 0) {
                                    lemma_dve_elim(gx, gy, 0, i as int);
                                }
                            }
                            return false;
                        },
                        Some(bv) => {
                            proof {
                                assert(decreases_to!(*a => *da));
                                assert(decreases_to!(*da => da.entries));
                                assert(decreases_to!(da.entries => da.entries@));
                                assert(decreases_to!(da.entries@ => da.entries@[i as int]));
                                assert(decreases_to!(
                                    da.entries@[i as int] => da.entries@[i as int].1));
                            }
                            let same = eq_value(&da.entries[i].1, bv);
                            proof {
                                lemma_dlookup_dict_map(gy, gx[i as int].0);
                                assert(bv@ == dlookup(gy, gx[i as int].0)->0);
                            }
                            if !same {
                                proof {
                                    if dict_vals_eq(gx, gy, 0) {
                                        lemma_dve_elim(gx, gy, 0, i as int);
                                    }
                                }
                                return false;
                            }
                        },
                    }
                } else {
                    proof {
                        assert(!first_occ(gx, i as int));
                    }
                }
                i += 1;
            }
            // every key of db must also be a key of da
            let mut j2: usize = 0;
            while j2 < db.entries.len()
                invariant
                    0 <= j2 <= db.entries@.len(),
                    forall|t: int| 0 <= t < gx.len() ==> dve_cond(gx, gy, t),
                    forall|t: int|
                        0 <= t < gx.len() && first_occ(gx, t) ==> dict_map(gy).contains_key(
                            #[trigger] gx[t].0,
                        ),
                    forall|t: int|
                        0 <= t < j2 ==> dict_map(gx).contains_key(#[trigger] gy[t].0),
                decreases db.entries@.len() - j2,
            {
                match da.get(&db.entries[j2].0) {
                    None => {
                        proof {
                            lemma_dlookup_dict_map(gy, gy[j2 as int].0);
                            lemma_dlookup_at_self(gy, j2 as int);
                            assert(dict_map(gy).contains_key(gy[j2 as int].0));
                            assert(!dict_map(gx).contains_key(gy[j2 as int].0));
                            assert(dict_map(gx).dom() != dict_map(gy).dom());
                        }
                        return false;
                    },
                    Some(_) => {
                    },
                }
                j2 += 1;
            }
            proof {
                assert forall|k: Seq<char>| dict_map(gx).dom().contains(k) implies dict_map(
                    gy,
                ).dom().contains(k) by {
                    lemma_contains_first_occ(gx, k);
                }
                assert forall|k: Seq<char>| dict_map(gy).dom().contains(k) implies dict_map(
                    gx,
                ).dom().contains(k) by {
                    lemma_contains_first_occ(gy, k);
                }
                assert(dict_map(gx).dom() =~= dict_map(gy).dom());
                lemma_dve_intro(gx, gy, 0);
            }
            true
        },
        _ => {
            proof {
                assert(!val_eq(a@, b@));
            }
            false
        },
    }
}

/// Any entry whose key is in the mapping contributes to it somewhere; a key
/// present at an entry is a key of the mapping.
proof fn lemma_dlookup_at_self(es: Seq<(Seq<char>, Val)>, i: int)
    requires
        0 <= i < es.len(),
    ensures
        dlookup(es, es[i].0) is Some,
    decreases i,
{
    if es[0].0 != es[i].0 {
        lemma_dlookup_at_self(es.drop_first(), i - 1);
    }
}


/// The canonical text rendering of a value: booleans as `true`/`false`,
/// text as itself, numbers in decimal, lists as a bracketed listing of each
/// element's rendering in quotes, dictionaries as a fixed placeholder
/// (dictionaries have no text rendering of their own).
pub open spec fn val_text(v: Val) -> Seq<char>
    decreases v, 1int, 0int,
{
    match v {
        Val::Bool(b) => if b {
            "true"@
        } else {
            "false"@
        },
        Val::Text(s) => s,
        Val::U32(n) => dec_seq(n as int),
        Val::List(items) => seq!['['] + list_text(items, items.len() as int) + seq![']'],
        Val::Dict(es) => "(dictionary)"@,
    }
}

/// The listing of the first `i` elements of `items`, each rendered and
/// quoted, separated by comma and space.
pub open spec fn list_text(items: Seq<Val>, i: int) -> Seq<char>
    decreases items, 0int, i,
{
    if i <= 0 || i > items.len() {
        Seq::empty()
    } else {
        list_text(items, i - 1) + (if i > 1 {
            seq![',', ' ']
        } else {
            Seq::empty()
        }) + seq!['"'] + val_text(items[i - 1]) + seq!['"']
    }
}

/// Render a value as text.
#[verifier::loop_isolation(false)]
pub fn render_text(v: &VarValue) -> (r: Vec<char>)
    ensures
        r@ == val_text(v@),
    decreases v,
{
    match v {
        VarValue::Bool(b) => {
            if *b {
                to_char_vec("true")
            } else {
                to_char_vec("false")
            }
        },
        VarValue::Text(s) => to_char_vec(s.as_str()),
        VarValue::U32(n) => u32_chars(*n),
        VarValue::List(items) => {
            proof {
                lemma_vals_of(items@);
            }
            let ghost gitems = vals_of(items@);
            let mut out: Vec<char> = Vec::new();
            out.push('[');
            let mut j: usize = 0;
            while j < items.len()
                invariant
                    0 <= j <= items@.len(),
                    out@ == seq!['['] + list_text(gitems, j as int),
                decreases items@.len() - j,
            {
                if j > 0 {
                    out.push(',');
                    out.push(' ');
                }
                out.push('"');
                proof {
                    assert(decreases_to!(*v => *items));
                    assert(decreases_to!(*items => items@));
                    assert(decreases_to!(items@ => items@[j as int]));
                }
                let piece = render_text(&items[j]);
                let mut ci: usize = 0;
                let ghost mid = out@;
                while ci < piece.len()
                    invariant
                        0 <= ci <= piece@.len(),
                        out@ == mid + piece@.take(ci as int),
                    decreases piece@.len() - ci,
                {
                    out.push(piece[ci]);
                    proof {
                        assert(mid + piece@.take(ci + 1) =~= (mid + piece@.take(
                            ci as int,
                        )).push(piece@[ci as int]));
                    }
                    ci += 1;
                }
                out.push('"');
                proof {
                    assert(piece@.take(piece@.len() as int) =~= piece@);
                    assert(out@ =~= seq!['['] + list_text(gitems, j + 1));
                }
                j += 1;
            }
            out.push(']');
            proof {
                assert(out@ =~= seq!['['] + list_text(gitems, items@.len() as int) + seq![']']);
            }
            out
        },
        VarValue::Dict(_) => to_char_vec("(dictionary)"),
    }
}

} // verus!
