//! The variable resolver: name legality and dotted-path lookup through
//! nested dictionaries.
use crate::errors::ErrSpec;
use crate::errors::ErrorKind;
use crate::text::split_on;
use crate::text::split_range;
use crate::text::to_char_vec;
use crate::text::chars_to_string;
use crate::text::lemma_split_on_len;
use crate::value::Val;
use crate::value::VarValue;
use crate::value::Vars;
use crate::value::dlookup;
use crate::value::lemma_dlookup_dict_map;
use vstd::prelude::*;

verus! {

/// Whether `c` may stand in a variable name.
pub open spec fn legal_name_char(c: char, dot_allowed: bool) -> bool {
    ('a' <= c && c <= 'z') || ('A' <= c && c <= 'Z') || ('0' <= c && c <= '9') || c == '_' || c
        == '/' || (dot_allowed && c == '.')
}

/// Whether every character of `s` may stand in a variable name.
pub open spec fn legal_name(s: Seq<char>, dot_allowed: bool) -> bool {
    forall|j: int| 0 <= j < s.len() ==> legal_name_char(s[j], dot_allowed)
}

/// Resolution of a dotted path, in the model: check legality, look the
/// first segment up, then descend through dictionary values.
pub open spec fn resolve(vars: Map<Seq<char>, Val>, name: Seq<char>) -> Result<Val, ErrSpec> {
    if !legal_name(name, true) {
        Result::Err(ErrSpec::IllegalVarName(name))
    } else {
        let parts = split_on(name, '.');
        if !vars.contains_key(parts[0]) {
            Result::Err(ErrSpec::VarNotFound(name))
        } else {
            resolve_path(vars[parts[0]], parts, 1, name)
        }
    }
}

/// Descent through the remaining path segments.
pub open spec fn resolve_path(v: Val, parts: Seq<Seq<char>>, i: int, name: Seq<char>) -> Result<
    Val,
    ErrSpec,
>
    decreases parts.len() - i,
{
    if i >= parts.len() {
        Result::Ok(v)
    } else {
        match v {
            Val::Dict(es) => match dlookup(es, parts[i]) {
                Some(v2) => resolve_path(v2, parts, i + 1, name),
                None => Result::Err(ErrSpec::VarNotFound(name)),
            },
            _ => Result::Err(ErrSpec::VarNotFound(name)),
        }
    }
}

/// Check a variable name for disallowed characters; a dot is only accepted
/// where dotted access is permitted.
pub fn check_var_name_legality(var_name: &String, dot_allowed: bool) -> (r: Result<(), ErrorKind>)
    ensures
        match r {
            Ok(()) => legal_name(var_name@, dot_allowed),
            Err(e) => !legal_name(var_name@, dot_allowed) && e@ == ErrSpec::IllegalVarName(
                var_name@,
            ),
        },
{
    let chars = to_char_vec(var_name.as_str());
    let mut j: usize = 0;
    while j < chars.len()
        invariant
            0 <= j <= chars@.len(),
            chars@ == var_name@,
            forall|t: int| 0 <= t < j ==> legal_name_char(var_name@[t], dot_allowed),
        decreases chars@.len() - j,
    {
        let c = chars[j];
        let ok = ('a' <= c && c <= 'z') || ('A' <= c && c <= 'Z') || ('0' <= c && c <= '9') || c
            == '_' || c == '/' || (dot_allowed && c == '.');
        if !ok {
            proof {
                assert(!legal_name_char(var_name@[j as int], dot_allowed));
            }
            return Err(ErrorKind::IllegalVarName(var_name.clone()));
        }
        j += 1;
    }
    Ok(())
}

/// Resolve a dotted path against the variable mapping, descending through
/// nested dictionaries; read-only.
pub fn get_var<'a>(var_name: String, vars: &'a Vars) -> (r: Result<&'a VarValue, ErrorKind>)
    ensures
        match r {
            Ok(v) => resolve(vars@, var_name@) == Result::<Val, ErrSpec>::Ok(v@),
            Err(e) => resolve(vars@, var_name@) == Result::<Val, ErrSpec>::Err(e@),
        },
{
    if let Err(e) = check_var_name_legality(&var_name, true) {
        return Err(e);
    }
    let chars = to_char_vec(var_name.as_str());
    let parts = split_range(&chars, 0, chars.len(), '.');
    proof {
        assert(chars@.subrange(0, chars@.len() as int) =~= var_name@);
        lemma_split_on_len(var_name@, '.');
    }
    let ghost gparts = split_on(var_name@, '.');
    let first = chars_to_string(&parts[0]);
    let looked = vars.get(&first);
    if looked.is_none() {
        return Err(ErrorKind::VarNotFound(var_name));
    }
    let mut cur: &VarValue = looked.unwrap();
    let mut i: usize = 1;
    while i < parts.len()
        invariant
            1 <= i <= parts@.len(),
            parts@.len() == gparts.len(),
            forall|t: int| 0 <= t < gparts.len() ==> parts@[t]@ == gparts[t],
            resolve(vars@, var_name@) == resolve_path(cur@, gparts, i as int, var_name@),
        decreases parts@.len() - i,
    {
        let seg = chars_to_string(&parts[i]);
        match cur {
            VarValue::Dict(d) => {
                match d.get(&seg) {
                    Some(nv) => {
                        proof {
                            lemma_dlookup_dict_map(crate::value::dict_entries(*d), seg@);
                        }
                        cur = nv;
                    },
                    None => {
                        proof {
                            lemma_dlookup_dict_map(crate::value::dict_entries(*d), seg@);
                        }
                        return Err(ErrorKind::VarNotFound(var_name));
                    },
                }
            },
            _ => {
                return Err(ErrorKind::VarNotFound(var_name));
            },
        }
        i += 1;
    }
    Ok(cur)
}

} // verus!
