use vstd::prelude::*;
use crate::templating::{find_template_marker, template_marker};
use crate::text::str_equals;

verus! {

/// How deep substitutions may nest before a resolution counts as a cycle.
pub const MAX_DEPTH: usize = 64;

/// A variable declared by an installer manifest, with its default value.
pub struct Variable {
    pub name: String,
    pub value: Option<String>,
}

/// What a resolution can fail with.
pub enum ResolveError {
    /// A built-in name whose game is missing from the host configuration.
    UnknownBuiltin(String),
    /// A name with no override, no declaration or an empty default.
    UndefinedVariable(String),
    /// Substitutions nested deeper than `MAX_DEPTH`.
    VariableCycle,
}

/// The mathematical counterpart of `ResolveError`.
pub enum ResolveFailure {
    UnknownBuiltin(Seq<char>),
    UndefinedVariable(Seq<char>),
    VariableCycle,
}

impl View for ResolveError {
    type V = ResolveFailure;

    open spec fn view(&self) -> ResolveFailure {
        match self {
            ResolveError::UnknownBuiltin(n) => ResolveFailure::UnknownBuiltin(n@),
            ResolveError::UndefinedVariable(n) => ResolveFailure::UndefinedVariable(n@),
            ResolveError::VariableCycle => ResolveFailure::VariableCycle,
        }
    }
}

/// Everything a resolution reads: the manifest's declarations, the user's
/// overrides, and the root directory of each game on this host.
pub struct VariablesContext {
    pub variables: Vec<Variable>,
    pub ttw_config_variables: Vec<(String, String)>,
    pub game_roots: Vec<(String, String)>,
}

/// The tables of a `VariablesContext` as sequences of plain text.
pub struct ContextView {
    pub declared: Seq<(Seq<char>, Option<Seq<char>>)>,
    pub overrides: Seq<(Seq<char>, Seq<char>)>,
    pub games: Seq<(Seq<char>, Seq<char>)>,
}

pub open spec fn pair_view(p: (String, String)) -> (Seq<char>, Seq<char>) {
    (p.0@, p.1@)
}

pub open spec fn opt_view(o: Option<String>) -> Option<Seq<char>> {
    match o {
        Some(s) => Some(s@),
        None => None,
    }
}

pub open spec fn variable_view(v: Variable) -> (Seq<char>, Option<Seq<char>>) {
    (v.name@, opt_view(v.value))
}

impl View for VariablesContext {
    type V = ContextView;

    open spec fn view(&self) -> ContextView {
        ContextView {
            declared: self.variables@.map_values(|v: Variable| variable_view(v)),
            overrides: self.ttw_config_variables@.map_values(|p: (String, String)| pair_view(p)),
            games: self.game_roots@.map_values(|p: (String, String)| pair_view(p)),
        }
    }
}

pub open spec fn result_view(r: Result<String, ResolveError>) -> Result<Seq<char>, ResolveFailure> {
    match r {
        Ok(v) => Ok(v@),
        Err(e) => Err(e@),
    }
}

/// The value of the last entry named `key`: a later entry for a name
/// replaces an earlier one.
pub open spec fn lookup<V>(t: Seq<(Seq<char>, V)>, key: Seq<char>) -> Option<V>
    decreases t.len(),
{
    if t.len() == 0 {
        None
    } else if t.last().0 == key {
        Some(t.last().1)
    } else {
        lookup(t.drop_last(), key)
    }
}

/// A value that is present and not empty; an empty value counts as unset.
pub open spec fn non_empty(v: Option<Seq<char>>) -> Option<Seq<char>> {
    match v {
        Some(s) => if s.len() > 0 { Some(s) } else { None },
        None => None,
    }
}

/// What a variable name stands for, before its own markers are resolved.
pub open spec fn variable_value(ctx: ContextView, name: Seq<char>) -> Result<Seq<char>, ResolveFailure> {
    if name == "FO3ROOT"@ || name == "FNVROOT"@ {
        let game = if name == "FO3ROOT"@ { "Fallout3"@ } else { "FalloutNewVegas"@ };
        match lookup(ctx.games, game) {
            Some(root) => Ok(root),
            None => Err(ResolveFailure::UnknownBuiltin(name)),
        }
    } else {
        match non_empty(lookup(ctx.overrides, name)) {
            Some(v) => Ok(v),
            None => match lookup(ctx.declared, name) {
                Some(default) => match non_empty(default) {
                    Some(v) => Ok(v),
                    None => Err(ResolveFailure::UndefinedVariable(name)),
                },
                None => Err(ResolveFailure::UndefinedVariable(name)),
            },
        }
    }
}

/// An empty override counts as unset: the declared default decides.
pub proof fn lemma_empty_override_is_unset(ctx: ContextView, name: Seq<char>)
    requires
        name != "FO3ROOT"@,
        name != "FNVROOT"@,
        lookup(ctx.overrides, name) == Some(Seq::<char>::empty()),
    ensures
        variable_value(ctx, name) == match lookup(ctx.declared, name) {
            Some(d) => match non_empty(d) {
                Some(v) => Ok(v),
                None => Err(ResolveFailure::UndefinedVariable(name)),
            },
            None => Err(ResolveFailure::UndefinedVariable(name)),
        },
{
}

/// An empty default counts as unset: without an override the variable is
/// undefined.
pub proof fn lemma_empty_default_is_unset(ctx: ContextView, name: Seq<char>)
    requires
        name != "FO3ROOT"@,
        name != "FNVROOT"@,
        non_empty(lookup(ctx.overrides, name)) is None,
        lookup(ctx.declared, name) == Some(Some(Seq::<char>::empty())),
    ensures
        variable_value(ctx, name) == Err::<Seq<char>, ResolveFailure>(ResolveFailure::UndefinedVariable(name)),
{
}

/// Resolves the first marker of `s`, the value substituted for it, and then
/// the whole text again, allowing `depth` nested substitutions.
pub open spec fn resolve(ctx: ContextView, s: Seq<char>, depth: nat) -> Result<
    Seq<char>,
    ResolveFailure,
>
    decreases depth,
{
    match template_marker(s) {
        None => Ok(s),
        Some((left, name, right)) => if depth == 0 {
            Err(ResolveFailure::VariableCycle)
        } else {
            match variable_value(ctx, name) {
                Err(e) => Err(e),
                Ok(v) => match resolve(ctx, v, (depth - 1) as nat) {
                    Err(e) => Err(e),
                    Ok(rv) => resolve(ctx, left + rv + right, (depth - 1) as nat),
                },
            }
        }
    }
}

/// What `resolve_variable` returns for `s`.
pub open spec fn resolved(ctx: ContextView, s: Seq<char>) -> Result<Seq<char>, ResolveFailure> {
    resolve(ctx, s, MAX_DEPTH as nat)
}

/// A resolution that succeeds leaves no marker behind.
pub proof fn lemma_resolved_has_no_marker(ctx: ContextView, s: Seq<char>, depth: nat)
    ensures
        resolve(ctx, s, depth) is Ok ==> template_marker(resolve(ctx, s, depth)->Ok_0) is None,
    decreases depth,
{
    match template_marker(s) {
        None => {},
        Some((left, name, right)) => {
            if depth > 0 {
                match variable_value(ctx, name) {
                    Err(e) => {},
                    Ok(v) => match resolve(ctx, v, (depth - 1) as nat) {
                        Err(e) => {},
                        Ok(rv) => {
                            lemma_resolved_has_no_marker(ctx, left + rv + right, (depth - 1) as nat);
                        },
                    },
                }
            }
        },
    }
}

/// Resolving is idempotent: whatever a successful resolution returns
/// resolves to itself.
pub proof fn lemma_resolve_idempotent(ctx: ContextView, s: Seq<char>, t: Seq<char>)
    requires
        resolved(ctx, s) == Ok::<Seq<char>, ResolveFailure>(t),
    ensures
        resolved(ctx, t) == Ok::<Seq<char>, ResolveFailure>(t),
{
    lemma_resolved_has_no_marker(ctx, s, MAX_DEPTH as nat);
}

/// The value of the last pair whose key is `key`.
fn lookup_pair<'a>(t: &'a Vec<(String, String)>, key: &str) -> (r: Option<&'a String>)
    ensures
        match r {
            Some(v) => lookup(t@.map_values(|p: (String, String)| pair_view(p)), key@) == Some(v@),
            None => lookup(t@.map_values(|p: (String, String)| pair_view(p)), key@) is None,
        },
{
    let ghost whole = t@.map_values(|p: (String, String)| pair_view(p));
    let mut found: Option<&'a String> = None;
    let mut i: usize = 0;
    while i < t.len()
        invariant
            i <= t@.len(),
            whole == t@.map_values(|p: (String, String)| pair_view(p)),
            match found {
                Some(v) => lookup(whole.subrange(0, i as int), key@) == Some(v@),
                None => lookup(whole.subrange(0, i as int), key@) is None,
            },
        decreases t.len() - i,
    {
        proof {
            assert(whole.subrange(0, i + 1).drop_last() =~= whole.subrange(0, i as int));
        }
        if str_equals(t[i].0.as_str(), key) {
            found = Some(&t[i].1);
        }
        i = i + 1;
    }
    proof {
        assert(whole.subrange(0, whole.len() as int) =~= whole);
    }
    found
}

/// The default value declared last for `key`, if the manifest declares it.
fn lookup_declared<'a>(t: &'a Vec<Variable>, key: &str) -> (r: Option<&'a Option<String>>)
    ensures
        match r {
            Some(v) => lookup(t@.map_values(|d: Variable| variable_view(d)), key@) == Some(opt_view(*v)),
            None => lookup(t@.map_values(|d: Variable| variable_view(d)), key@) is None,
        },
{
    let ghost whole = t@.map_values(|d: Variable| variable_view(d));
    let mut found: Option<&'a Option<String>> = None;
    let mut i: usize = 0;
    while i < t.len()
        invariant
            i <= t@.len(),
            whole == t@.map_values(|d: Variable| variable_view(d)),
            match found {
                Some(v) => lookup(whole.subrange(0, i as int), key@) == Some(opt_view(*v)),
                None => lookup(whole.subrange(0, i as int), key@) is None,
            },
        decreases t.len() - i,
    {
        proof {
            assert(whole.subrange(0, i + 1).drop_last() =~= whole.subrange(0, i as int));
        }
        if str_equals(t[i].name.as_str(), key) {
            found = Some(&t[i].value);
        }
        i = i + 1;
    }
    proof {
        assert(whole.subrange(0, whole.len() as int) =~= whole);
    }
    found
}

impl VariablesContext {
    /// What `name` stands for, before its own markers are resolved.
    fn variable_value(&self, name: &str) -> (r: Result<String, ResolveError>)
        ensures
            result_view(r) == variable_value(self@, name@),
    {
        let fo3 = str_equals(name, "FO3ROOT");
        let fnv = str_equals(name, "FNVROOT");
        if fo3 || fnv {
            let game = if fo3 {
                "Fallout3"
            } else {
                "FalloutNewVegas"
            };
            match lookup_pair(&self.game_roots, game) {
                Some(root) => Ok(root.clone()),
                None => Err(ResolveError::UnknownBuiltin(String::from_str(name))),
            }
        } else {
            if let Some(v) = lookup_pair(&self.ttw_config_variables, name) {
                if v.as_str().unicode_len() > 0 {
                    return Ok(v.clone());
                }
            }
            match lookup_declared(&self.variables, name) {
                Some(Some(v)) => if v.as_str().unicode_len() > 0 {
                    Ok(v.clone())
                } else {
                    Err(ResolveError::UndefinedVariable(String::from_str(name)))
                },
                _ => Err(ResolveError::UndefinedVariable(String::from_str(name))),
            }
        }
    }

    /// Resolves `s` allowing `depth` nested substitutions.
    fn resolve_in(&self, s: &str, depth: usize) -> (r: Result<String, ResolveError>)
        ensures
            result_view(r) == resolve(self@, s@, depth as nat),
        decreases depth,
    {
        match find_template_marker(s) {
            None => Ok(String::from_str(s)),
            Some((left, name, right)) => {
                if depth == 0 {
                    return Err(ResolveError::VariableCycle);
                }
                let value = match self.variable_value(name) {
                    Ok(v) => v,
                    Err(e) => return Err(e),
                };
                let inner = match self.resolve_in(value.as_str(), depth - 1) {
                    Ok(v) => v,
                    Err(e) => return Err(e),
                };
                let whole = String::from_str(left).concat(inner.as_str()).concat(right);
                self.resolve_in(whole.as_str(), depth - 1)
            },
        }
    }

    /// Expands every `%NAME%` marker of `maybe_with_variable`, the values
    /// substituted included.
    pub fn resolve_variable(&self, maybe_with_variable: &str) -> (r: Result<String, ResolveError>)
        ensures
            result_view(r) == resolved(self@, maybe_with_variable@),
    {
        self.resolve_in(maybe_with_variable, MAX_DEPTH)
    }
}

} // verus!
