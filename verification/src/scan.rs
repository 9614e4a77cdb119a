//! The lexical scanner: one forward pass that finds directive tokens
//! between `[[ ` and ` ]]`, silently abandoning malformed bracket runs.
use crate::text::chars_to_string;
use vstd::prelude::*;

verus! {

/// A directive token in the model: where it starts and the exact slice of
/// source text it covers, delimiters included.
pub ghost struct Tok {
    pub at: int,
    pub content: Seq<char>,
}

/// A located directive match: the exact source slice (with delimiters) and
/// its starting position in the template text.
#[derive(Clone, Debug)]
pub struct SyntaxMatch {
    pub content: String,
    pub index: usize,
}

impl View for SyntaxMatch {
    type V = Tok;

    open spec fn view(&self) -> Tok {
        Tok { at: self.index as int, content: self.content@ }
    }
}

impl PartialEq for SyntaxMatch {
    fn eq(&self, other: &Self) -> (r: bool) {
        self.index == other.index && self.content == other.content
    }
}

impl vstd::std_specs::cmp::PartialEqSpecImpl for SyntaxMatch {
    open spec fn obeys_eq_spec() -> bool {
        true
    }

    open spec fn eq_spec(&self, other: &Self) -> bool {
        self.index == other.index && self.content@ == other.content@
    }
}

/// Whether `c` may stand inside a directive.
pub open spec fn legal_dir_char(c: char) -> bool {
    ('a' <= c && c <= 'z') || ('A' <= c && c <= 'Z') || ('0' <= c && c <= '9') || c == '_' || c
        == '.' || c == ':' || c == '-' || c == '!'
}

/// One forward scan from position `i`, carrying whether the scanner is
/// inside a directive and where that directive started.
pub open spec fn scan_from(t: Seq<char>, i: int, in_m: bool, mi: int, acc: Seq<Tok>) -> Seq<Tok>
    decreases t.len() - i,
{
    if i < 0 || i >= t.len() {
        acc
    } else {
        let c = t[i];
        if 1 < i && i < t.len() - 2 {
            if c == ' ' && t[i - 1] == '[' && t[i - 2] == '[' {
                scan_from(t, i + 1, true, i - 2, acc)
            } else if in_m && c == ' ' && t[i + 1] == ']' && t[i + 2] == ']' {
                scan_from(
                    t,
                    i + 1,
                    false,
                    mi,
                    acc.push(Tok { at: mi, content: t.subrange(mi, i + 3) }),
                )
            } else if in_m && !legal_dir_char(c) {
                scan_from(t, i + 1, false, mi, acc)
            } else {
                scan_from(t, i + 1, in_m, mi, acc)
            }
        } else {
            scan_from(t, i + 1, in_m, mi, acc)
        }
    }
}

/// The directive tokens of `t`, in source order.
pub open spec fn scan(t: Seq<char>) -> Seq<Tok> {
    scan_from(t, 0, false, 0, Seq::empty())
}

/// Scan for directive spans: each returned pair gives the start and end
/// positions in `text` of one token of the model, in order, non-overlapping,
/// each at least six characters wide and closed by `]]`.
#[verifier::loop_isolation(false)]
pub(crate) fn scan_spans(text: &Vec<char>) -> (r: Vec<(usize, usize)>)
    ensures
        r@.len() == scan(text@).len(),
        forall|k: int|
            0 <= k < r@.len() ==> {
                &&& (#[trigger] scan(text@)[k]).at == r@[k].0
                &&& scan(text@)[k].content == text@.subrange(r@[k].0 as int, r@[k].1 as int)
            },
        forall|k: int|
            0 <= k < r@.len() ==> (#[trigger] r@[k]).0 + 6 <= r@[k].1 <= text@.len(),
        forall|k: int| 0 <= k < r@.len() - 1 ==> (#[trigger] r@[k]).1 <= r@[k + 1].0,
{
    let n = text.len();
    let mut spans: Vec<(usize, usize)> = Vec::new();
    let ghost mut acc: Seq<Tok> = Seq::empty();
    let mut in_m: bool = false;
    let mut mi: usize = 0;
    let mut i: usize = 0;
    while i < n
        invariant
            0 <= i <= n,
            n == text@.len(),
            scan(text@) == scan_from(text@, i as int, in_m, mi as int, acc),
            acc.len() == spans@.len(),
            forall|k: int|
                0 <= k < spans@.len() ==> {
                    &&& (#[trigger] acc[k]).at == spans@[k].0
                    &&& acc[k].content == text@.subrange(spans@[k].0 as int, spans@[k].1 as int)
                },
            forall|k: int|
                0 <= k < spans@.len() ==> (#[trigger] spans@[k]).0 + 6 <= spans@[k].1 <= n,
            forall|k: int| 0 <= k < spans@.len() - 1 ==> (#[trigger] spans@[k]).1 <= spans@[k + 1].0,
            spans@.len() > 0 ==> {
                &&& spans@.last().1 <= i + 2
                &&& spans@.last().1 >= 2
                &&& text@[spans@.last().1 - 1] == ']'
                &&& text@[spans@.last().1 - 2] == ']'
            },
            in_m ==> mi + 3 <= i && (spans@.len() > 0 ==> spans@.last().1 <= mi),
        decreases n - i,
    {
        let c = text[i];
        if i > 1 && i < n - 2 {
            if c == ' ' && text[i - 1] == '[' && text[i - 2] == '[' {
                proof {
                    if spans@.len() > 0 {
                        let le = spans@.last().1;
                        if le == i + 2 {
                            assert(text@[i as int] == ' ');
                        }
                        if le == i + 1 {
                            assert(text@[i - 1] == '[');
                        }
                        if le == i {
                            assert(text@[i - 1] == '[');
                        }
                        if le == i - 1 {
                            assert(text@[i - 2] == '[');
                        }
                        assert(le <= i - 2);
                    }
                }
                in_m = true;
                mi = i - 2;
            } else if in_m && c == ' ' && text[i + 1] == ']' && text[i + 2] == ']' {
                in_m = false;
                let ghost old_spans = spans@;
                spans.push((mi, i + 3));
                proof {
                    acc = acc.push(Tok { at: mi as int, content: text@.subrange(mi as int, i + 3) });
                    assert(spans@ == old_spans.push((mi, (i + 3) as usize)));
                    assert(spans@.last() == (mi, (i + 3) as usize));
                    assert forall|k: int| 0 <= k < spans@.len() implies (#[trigger] spans@[k]).0 + 6
                        <= spans@[k].1 <= n by {
                        if k < old_spans.len() {
                            assert(spans@[k] == old_spans[k]);
                        } else {
                            assert(spans@[k] == (mi, (i + 3) as usize));
                        }
                    }
                }
            } else if in_m && !legal_char_exec_holds(c) {
                in_m = false;
            }
        }
        i += 1;
    }
    proof {
        assert(scan_from(text@, n as int, in_m, mi as int, acc) == acc);
    }
    spans
}

/// Whether `c` may stand inside a directive.
fn legal_char_exec_holds(c: char) -> (r: bool)
    ensures
        r == legal_dir_char(c),
{
    ('a' <= c && c <= 'z') || ('A' <= c && c <= 'Z') || ('0' <= c && c <= '9') || c == '_' || c
        == '.' || c == ':' || c == '-' || c == '!'
}

/// Build the public match list from the scanned spans.
pub(crate) fn spans_to_matches(text: &Vec<char>, spans: &Vec<(usize, usize)>) -> (r: Vec<
    SyntaxMatch,
>)
    requires
        spans@.len() == scan(text@).len(),
        forall|k: int|
            0 <= k < spans@.len() ==> {
                &&& (#[trigger] scan(text@)[k]).at == spans@[k].0
                &&& scan(text@)[k].content == text@.subrange(spans@[k].0 as int, spans@[k].1 as int)
            },
        forall|k: int|
            0 <= k < spans@.len() ==> (#[trigger] spans@[k]).0 + 6 <= spans@[k].1 <= text@.len(),
    ensures
        r@.len() == scan(text@).len(),
        forall|k: int| 0 <= k < r@.len() ==> #[trigger] r@[k]@ == scan(text@)[k],
{
    let mut r: Vec<SyntaxMatch> = Vec::new();
    let mut k: usize = 0;
    while k < spans.len()
        invariant
            0 <= k <= spans@.len(),
            spans@.len() == scan(text@).len(),
            forall|t: int|
                0 <= t < spans@.len() ==> {
                    &&& (#[trigger] scan(text@)[t]).at == spans@[t].0
                    &&& scan(text@)[t].content == text@.subrange(
                        spans@[t].0 as int,
                        spans@[t].1 as int,
                    )
                },
            forall|t: int|
                0 <= t < spans@.len() ==> (#[trigger] spans@[t]).0 + 6 <= spans@[t].1 <= text@.len(),
            r@.len() == k,
            forall|t: int| 0 <= t < k ==> #[trigger] r@[t]@ == scan(text@)[t],
        decreases spans@.len() - k,
    {
        let (a, b) = spans[k];
        let mut piece: Vec<char> = Vec::new();
        crate::text::push_range(&mut piece, text, a, b);
        proof {
            assert(piece@ =~= text@.subrange(a as int, b as int));
        }
        let content = chars_to_string(&piece);
        r.push(SyntaxMatch { content, index: a });
        k += 1;
    }
    r
}

} // verus!
