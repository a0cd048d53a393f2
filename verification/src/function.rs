use vstd::prelude::*;
use crate::text::{chars_lt, chars_of, chars_eq, chars_le_exec, lemma_chars_le_antisym,
    lemma_chars_le_total, lemma_chars_le_trans};
use crate::diagnostic::DaihonDiagnostic;
use crate::span::{Span, Spanned};
use crate::text::{decimal_chars, spec_decimal, string_of};
use crate::validate::{diagnostic_view, diagnostic_views, error_view, lemma_views_push, DiagnosticView};
use crate::value::ValueType;
use crate::ast::{Expr, FuncArg, FunctionCall, LiteralValue};

verus! {

/// How calls to functions that the registry does not know are judged.
#[derive(Clone, Copy, Debug, PartialEq, Eq, Structural)]
pub enum ValidationMode {
    Strict,
    Permissive,
}

impl Default for ValidationMode {
    fn default() -> (m: ValidationMode)
        ensures
            m == ValidationMode::Strict,
    {
        ValidationMode::Strict
    }
}

/// The signature of a function that scripts may call; a registry holds only signatures
/// whose named parameters are listed in name order, each name once (`params_ascending`).
#[derive(Clone, Debug, PartialEq, Eq)]
pub struct FunctionSpec {
    pub name: String,
    pub positional: Vec<ParamSpec>,
    pub named: Vec<(String, ParamSpec)>,
    pub return_type: Option<ValueType>,
}

/// One parameter of a function signature.
#[derive(Clone, Debug, PartialEq, Eq)]
pub struct ParamSpec {
    pub name: Option<String>,
    pub ty: ParamType,
    pub required: bool,
}

/// What a parameter accepts.
#[derive(Clone, Copy, Debug, PartialEq, Eq, Structural)]
pub enum ParamType {
    Any,
    Number,
    String,
    Boolean,
    BareWord,
}

/// The names of the listed signatures.
pub open spec fn spec_names(specs: Seq<FunctionSpec>) -> Seq<Seq<char>> {
    specs.map_values(|s: FunctionSpec| s.name@)
}

/// The signatures are listed in strictly increasing name order.
/// Named parameters listed in strictly increasing name order, so each name once.
pub open spec fn params_ascending(named: Seq<(String, ParamSpec)>) -> bool {
    forall|i: int, j: int| 0 <= i < j < named.len() ==> #[trigger] chars_lt(named[i].0@, named[j].0@)
}

/// Every listed signature has its named parameters in name order.
pub open spec fn params_in_order(specs: Seq<FunctionSpec>) -> bool {
    forall|k: int| 0 <= k < specs.len() ==> params_ascending(#[trigger] specs[k].named@)
}

/// In a signature whose named parameters are in name order, a name names one parameter
/// only: the one a lookup finds.
pub proof fn lemma_named_param_unique(named: Seq<(String, ParamSpec)>, i: int, j: int)
    requires
        params_ascending(named),
        0 <= i < named.len(),
        0 <= j < named.len(),
        named[i].0@ == named[j].0@,
    ensures
        i == j,
{
    if i < j {
        assert(chars_lt(named[i].0@, named[j].0@));
    } else if j < i {
        assert(chars_lt(named[j].0@, named[i].0@));
    }
}

pub open spec fn names_ascending(specs: Seq<FunctionSpec>) -> bool {
    forall|i: int, j: int|
        0 <= i < j < specs.len() ==> #[trigger] chars_lt(specs[i].name@, specs[j].name@)
}

/// Some listed signature has the name.
pub open spec fn has_name(specs: Seq<FunctionSpec>, name: Seq<char>) -> bool {
    exists|i: int| 0 <= i < specs.len() && #[trigger] specs[i].name@ == name
}

/// An index at which a signature of the name is listed, where there is one.
pub open spec fn name_index(specs: Seq<FunctionSpec>, name: Seq<char>) -> int {
    choose|i: int| 0 <= i < specs.len() && #[trigger] specs[i].name@ == name
}

/// The signatures as a map from name to signature.
pub open spec fn specs_map(specs: Seq<FunctionSpec>) -> Map<Seq<char>, FunctionSpec> {
    Map::new(|k: Seq<char>| has_name(specs, k), |k: Seq<char>| specs[name_index(specs, k)])
}

/// The function signatures that scripts may call, keyed by name, with the
/// mode that decides how unknown functions are judged.
#[derive(Clone, Debug)]
pub struct FunctionRegistry {
    specs: Vec<FunctionSpec>,
    mode: ValidationMode,
}

impl View for FunctionRegistry {
    type V = Map<Seq<char>, FunctionSpec>;

    /// The registered signatures by name.
    closed spec fn view(&self) -> Map<Seq<char>, FunctionSpec> {
        specs_map(self.specs@)
    }
}

/// In a list in strictly increasing name order, a name is found at one index only.
proof fn lemma_name_unique(specs: Seq<FunctionSpec>, i: int, j: int)
    requires
        names_ascending(specs),
        0 <= i < specs.len(),
        0 <= j < specs.len(),
        specs[i].name@ == specs[j].name@,
    ensures
        i == j,
{
    if i < j {
        assert(chars_lt(specs[i].name@, specs[j].name@));
    } else if j < i {
        assert(chars_lt(specs[j].name@, specs[i].name@));
    }
}

/// In a list in strictly increasing name order, the map gives the entry found at an index.
proof fn lemma_map_at(specs: Seq<FunctionSpec>, i: int)
    requires
        names_ascending(specs),
        0 <= i < specs.len(),
    ensures
        specs_map(specs).dom().contains(specs[i].name@),
        specs_map(specs)[specs[i].name@] == specs[i],
{
    let k = specs[i].name@;
    assert(has_name(specs, k));
    let c = name_index(specs, k);
    lemma_name_unique(specs, i, c);
}

impl FunctionRegistry {
    /// The registered signatures in name order.
    pub closed spec fn entries(&self) -> Seq<FunctionSpec> {
        self.specs@
    }

    /// The mode for unknown functions.
    pub closed spec fn spec_mode(&self) -> ValidationMode {
        self.mode
    }

    /// The registry's invariant: signatures in strictly increasing name order, each with its
    /// named parameters in name order.
    pub closed spec fn wf(&self) -> bool {
        names_ascending(self.specs@) && params_in_order(self.specs@)
    }

    /// The entries are the registry's map, listed in strictly increasing name order.
    pub proof fn lemma_entries_are_view(&self)
        requires
            self.wf(),
        ensures
            names_ascending(self.entries()),
            specs_map(self.entries()) == self@,
    {
    }

    /// An empty registry that rejects unknown functions.
    pub fn new() -> (r: FunctionRegistry)
        ensures
            r.wf(),
            r@ == Map::<Seq<char>, FunctionSpec>::empty(),
            r.entries().len() == 0,
            r.spec_mode() == ValidationMode::Strict,
    {
        let r = FunctionRegistry { specs: Vec::new(), mode: ValidationMode::Strict };
        assert(r@ =~= Map::<Seq<char>, FunctionSpec>::empty());
        r
    }

    /// An empty registry that lets unknown functions through.
    pub fn permissive() -> (r: FunctionRegistry)
        ensures
            r.wf(),
            r@ == Map::<Seq<char>, FunctionSpec>::empty(),
            r.entries().len() == 0,
            r.spec_mode() == ValidationMode::Permissive,
    {
        let r = FunctionRegistry { specs: Vec::new(), mode: ValidationMode::Permissive };
        assert(r@ =~= Map::<Seq<char>, FunctionSpec>::empty());
        r
    }

    /// The mode for unknown functions.
    pub fn mode(&self) -> (m: ValidationMode)
        ensures
            m == self.spec_mode(),
    {
        self.mode
    }

    /// Changes the mode; the signatures stay as they are.
    pub fn set_mode(&mut self, mode: ValidationMode)
        ensures
            final(self).spec_mode() == mode,
            final(self).entries() == old(self).entries(),
            final(self)@ == old(self)@,
            final(self).wf() == old(self).wf(),
    {
        self.mode = mode;
    }

    /// Adds a signature under its name, replacing one of the same name.
    pub fn register(&mut self, spec: FunctionSpec)
        requires
            old(self).wf(),
            params_ascending(spec.named@),
        ensures
            final(self).wf(),
            final(self)@ == old(self)@.insert(spec.name@, spec),
            final(self).spec_mode() == old(self).spec_mode(),
            final(self).entries().len() == old(self).entries().len() + if old(self)@.dom().contains(
                spec.name@,
            ) {
                0int
            } else {
                1int
            },
    {
        let ghost old_specs = self.specs@;
        let key = chars_of(spec.name.as_str());
        let mut i: usize = 0;
        let mut found = false;
        while i < self.specs.len()
            invariant_except_break
                !found,
            invariant
                self.specs@ == old_specs,
                names_ascending(old_specs),
                key@ == spec.name@,
                i <= old_specs.len(),
                forall|k: int| 0 <= k < i ==> #[trigger] chars_lt(old_specs[k].name@, key@),
            ensures
                self.specs@ == old_specs,
                i <= old_specs.len(),
                forall|k: int| 0 <= k < i ==> #[trigger] chars_lt(old_specs[k].name@, key@),
                found ==> i < old_specs.len() && old_specs[i as int].name@ == key@,
                !found ==> i == old_specs.len() || chars_lt(key@, old_specs[i as int].name@),
            decreases old_specs.len() - i,
        {
            let other = chars_of(self.specs[i].name.as_str());
            if chars_eq(other.as_slice(), key.as_slice()) {
                found = true;
                break;
            }
            if chars_le_exec(key.as_slice(), other.as_slice()) {
                break;
            }
            proof {
                lemma_chars_le_total(key@, other@);
            }
            i += 1;
        }
        let ghost pos = i as int;
        proof {
            // Every entry before `pos` sorts strictly before the key; the entry at `pos`, if any,
            // is the key itself or sorts strictly after it.
            assert(forall|k: int| 0 <= k < pos ==> #[trigger] chars_lt(old_specs[k].name@, spec.name@));
        }
        proof {
            if found {
                assert(has_name(old_specs, spec.name@));
            } else {
                assert forall|k: int| 0 <= k < old_specs.len() implies #[trigger] old_specs[k].name@
                    != spec.name@ by {
                    if k < pos {
                        assert(chars_lt(old_specs[k].name@, spec.name@));
                    } else if k == pos {
                        assert(chars_lt(spec.name@, old_specs[pos].name@));
                    } else {
                        let y = old_specs[pos].name@;
                        let z = old_specs[k].name@;
                        assert(chars_lt(y, z));
                        assert(chars_lt(spec.name@, y));
                        lemma_chars_le_trans(spec.name@, y, z);
                        if spec.name@ == z {
                            lemma_chars_le_antisym(y, z);
                        }
                    }
                }
                assert(!has_name(old_specs, spec.name@));
            }
        }
        if found {
            self.specs.set(i, spec);
            proof {
                let new_specs = self.specs@;
                assert(new_specs == old_specs.update(pos, spec));
                assert forall|a: int, b: int| 0 <= a < b < new_specs.len() implies
                    #[trigger] chars_lt(new_specs[a].name@, new_specs[b].name@) by {
                    assert(chars_lt(old_specs[a].name@, old_specs[b].name@));
                }
                self.lemma_insert_view(old_specs, pos, spec, true);
                assert forall|k: int| 0 <= k < new_specs.len() implies params_ascending(#[trigger] new_specs[k].named@) by {
                    if k != pos {
                        assert(new_specs[k] == old_specs[k]);
                    }
                }
            }
        } else {
            proof {
                if pos < old_specs.len() {
                    lemma_chars_le_total(spec.name@, old_specs[pos].name@);
                }
            }
            self.specs.insert(i, spec);
            proof {
                let new_specs = self.specs@;
                assert(new_specs == old_specs.insert(pos, spec));
                assert forall|a: int, b: int| 0 <= a < b < new_specs.len() implies
                    #[trigger] chars_lt(new_specs[a].name@, new_specs[b].name@) by {
                    if b < pos {
                        assert(chars_lt(old_specs[a].name@, old_specs[b].name@));
                    } else if b == pos {
                        assert(chars_lt(old_specs[a].name@, spec.name@));
                    } else if a == pos {
                        // key sorts before old entry pos, which sorts no later than old entry b - 1
                        let x = spec.name@;
                        let y = old_specs[pos].name@;
                        let z = old_specs[b - 1].name@;
                        if b - 1 > pos {
                            assert(chars_lt(y, z));
                            lemma_chars_le_trans(x, y, z);
                            if x == z {
                                lemma_chars_le_antisym(y, z);
                            }
                        }
                    } else if a < pos {
                        let x = old_specs[a].name@;
                        let z = old_specs[b - 1].name@;
                        assert(chars_lt(x, z));
                    } else {
                        assert(chars_lt(old_specs[a - 1].name@, old_specs[b - 1].name@));
                    }
                }
                self.lemma_insert_view(old_specs, pos, spec, false);
                assert forall|k: int| 0 <= k < new_specs.len() implies params_ascending(#[trigger] new_specs[k].named@) by {
                    if k < pos {
                        assert(new_specs[k] == old_specs[k]);
                    } else if k > pos {
                        assert(new_specs[k] == old_specs[k - 1]);
                    }
                }
            }
        }
    }

    /// After a replacement at, or an insertion before, position `pos` of a list in
    /// strictly increasing name order, the map changes at the new name only.
    proof fn lemma_insert_view(&self, old_specs: Seq<FunctionSpec>, pos: int, spec: FunctionSpec,
        replaced: bool)
        requires
            names_ascending(old_specs),
            names_ascending(self.specs@),
            0 <= pos <= old_specs.len(),
            replaced ==> pos < old_specs.len() && old_specs[pos].name@ == spec.name@
                && self.specs@ == old_specs.update(pos, spec),
            !replaced ==> self.specs@ == old_specs.insert(pos, spec),
        ensures
            self@ == specs_map(old_specs).insert(spec.name@, spec),
    {
        let new_specs = self.specs@;
        let m_old = specs_map(old_specs);
        let m_new = specs_map(new_specs);
        let expected = m_old.insert(spec.name@, spec);
        assert(new_specs[pos] == spec);
        lemma_map_at(new_specs, pos);
        assert forall|k: Seq<char>| #[trigger] m_new.dom().contains(k) implies
            expected.dom().contains(k) && m_new[k] == expected[k] by {
            let c = name_index(new_specs, k);
            lemma_map_at(new_specs, c);
            if k != spec.name@ {
                let oc = if replaced || c < pos { c } else { c - 1 };
                assert(old_specs[oc] == new_specs[c]);
                lemma_map_at(old_specs, oc);
            } else {
                lemma_name_unique(new_specs, c, pos);
            }
        }
        assert forall|k: Seq<char>| #[trigger] expected.dom().contains(k) implies
            m_new.dom().contains(k) by {
            if k != spec.name@ {
                let oc = name_index(old_specs, k);
                let c = if replaced || oc < pos { oc } else { oc + 1 };
                if replaced && oc == pos {
                    assert(false);
                }
                assert(new_specs[c] == old_specs[oc]);
                lemma_map_at(new_specs, c);
            }
        }
        assert(m_new =~= expected);
    }

    /// The signature registered under `name`, if any.
    pub fn get(&self, name: &str) -> (r: Option<&FunctionSpec>)
        requires
            self.wf(),
        ensures
            match r {
                Some(s) => self@.dom().contains(name@) && self@[name@] == *s,
                None => !self@.dom().contains(name@),
            },
    {
        let key = chars_of(name);
        let mut i: usize = 0;
        while i < self.specs.len()
            invariant
                names_ascending(self.specs@),
                key@ == name@,
                i <= self.specs@.len(),
                forall|k: int| 0 <= k < i ==> #[trigger] self.specs@[k].name@ != name@,
            decreases self.specs@.len() - i,
        {
            let other = chars_of(self.specs[i].name.as_str());
            if chars_eq(other.as_slice(), key.as_slice()) {
                proof {
                    lemma_map_at(self.specs@, i as int);
                }
                return Some(&self.specs[i]);
            }
            i += 1;
        }
        None
    }

    /// Whether a signature is registered under `name`.
    pub fn contains(&self, name: &str) -> (b: bool)
        requires
            self.wf(),
        ensures
            b == self@.dom().contains(name@),
    {
        self.get(name).is_some()
    }

    /// The registered signatures, in name order.
    pub fn specs(&self) -> (r: &Vec<FunctionSpec>)
        ensures
            r@ == self.entries(),
    {
        &self.specs
    }
}

impl Default for FunctionRegistry {
    fn default() -> (r: FunctionRegistry)
        ensures
            r.wf(),
            r@ == Map::<Seq<char>, FunctionSpec>::empty(),
            r.spec_mode() == ValidationMode::Strict,
    {
        FunctionRegistry::new()
    }
}

/// What a registration leaves behind: looking its name up gives the registered signature,
/// and every other name looks up as before.
pub proof fn lemma_register_then_get(before: FunctionRegistry, after: FunctionRegistry,
    spec: FunctionSpec, name: Seq<char>)
    requires
        after@ == before@.insert(spec.name@, spec),
    ensures
        after@.dom().contains(spec.name@),
        after@[spec.name@] == spec,
        name != spec.name@ ==> after@.dom().contains(name) == before@.dom().contains(name),
        name != spec.name@ && before@.dom().contains(name) ==> after@[name] == before@[name],
{
}

} // verus!
verus! {

// ---------------------------------------------------------------------------
// Checking calls against signatures
// ---------------------------------------------------------------------------

/// What a call argument is, as far as parameter types go: a bare word, a literal of a
/// kind, or any other expression.
#[derive(Clone, Copy, Debug, PartialEq, Eq, Structural)]
pub enum ArgKind {
    BareWord,
    Number,
    String,
    Boolean,
    Expr,
}

/// An argument of a call: its kind and its span.
#[derive(Clone, Copy, Debug, PartialEq, Eq, Structural)]
pub struct CallArg {
    pub kind: ArgKind,
    pub span: Span,
}

/// A function call as the signature check sees it: the function's name, the positional
/// arguments, the named arguments in name order, and the span of the call.
#[derive(Clone, Debug, PartialEq, Eq)]
pub struct CallShape {
    pub name: Spanned<String>,
    pub positional: Vec<CallArg>,
    pub named: Vec<(String, CallArg)>,
    pub span: Span,
}

/// A parameter of the type accepts the argument.
pub open spec fn accepts(ty: ParamType, kind: ArgKind) -> bool {
    match ty {
        ParamType::Any => true,
        ParamType::BareWord => kind == ArgKind::BareWord,
        ParamType::Number => kind == ArgKind::Number,
        ParamType::String => kind == ArgKind::BareWord || kind == ArgKind::String,
        ParamType::Boolean => kind == ArgKind::Boolean,
    }
}

/// What each parameter type accepts: any argument for `Any`; a bare word for `BareWord`;
/// a number literal for `Number`; a bare word or a string literal for `String` (never a
/// number, a boolean or another expression); a boolean literal for `Boolean`.
pub proof fn lemma_parameter_types_accept(kind: ArgKind)
    ensures
        accepts(ParamType::Any, kind),
        accepts(ParamType::BareWord, kind) <==> kind == ArgKind::BareWord,
        accepts(ParamType::Number, kind) <==> kind == ArgKind::Number,
        accepts(ParamType::String, kind) <==> (kind == ArgKind::BareWord || kind == ArgKind::String),
        accepts(ParamType::Boolean, kind) <==> kind == ArgKind::Boolean,
        !accepts(ParamType::String, ArgKind::Number),
        !accepts(ParamType::String, ArgKind::Boolean),
        !accepts(ParamType::String, ArgKind::Expr),
{
}

/// Whether a parameter of the type accepts the argument.
pub fn param_accepts(ty: ParamType, kind: ArgKind) -> (b: bool)
    ensures
        b == accepts(ty, kind),
{
    match ty {
        ParamType::Any => true,
        ParamType::BareWord => kind == ArgKind::BareWord,
        ParamType::Number => kind == ArgKind::Number,
        ParamType::String => kind == ArgKind::BareWord || kind == ArgKind::String,
        ParamType::Boolean => kind == ArgKind::Boolean,
    }
}

/// The name of a parameter type as diagnostics show it.
pub open spec fn param_type_label(ty: ParamType) -> Seq<char> {
    match ty {
        ParamType::Any => "Any"@,
        ParamType::Number => "Number"@,
        ParamType::String => "String"@,
        ParamType::Boolean => "Boolean"@,
        ParamType::BareWord => "BareWord"@,
    }
}

fn param_type_label_exec(ty: ParamType) -> (s: &'static str)
    ensures
        s@ == param_type_label(ty),
{
    match ty {
        ParamType::Any => "Any",
        ParamType::Number => "Number",
        ParamType::String => "String",
        ParamType::Boolean => "Boolean",
        ParamType::BareWord => "BareWord",
    }
}

/// The number of required parameters.
pub open spec fn required_count(params: Seq<ParamSpec>) -> nat
    decreases params.len(),
{
    if params.len() == 0 {
        0
    } else {
        required_count(params.drop_last()) + if params.last().required { 1nat } else { 0nat }
    }
}

/// The first named parameter of the name.
pub open spec fn named_param(named: Seq<(String, ParamSpec)>, name: Seq<char>) -> Option<ParamSpec>
    decreases named.len(),
{
    if named.len() == 0 {
        None
    } else if named[0].0@ == name {
        Some(named[0].1)
    } else {
        named_param(named.drop_first(), name)
    }
}

/// The call has a named argument of the name.
pub open spec fn has_named_arg(named: Seq<(String, CallArg)>, name: Seq<char>) -> bool {
    exists|i: int| 0 <= i < named.len() && #[trigger] named[i].0@ == name
}

/// The type errors of the first `k` positional arguments that have a parameter.
pub open spec fn positional_problems(f: Seq<char>, params: Seq<ParamSpec>, args: Seq<CallArg>, k: int)
    -> Seq<DiagnosticView>
    decreases k,
{
    if k <= 0 {
        Seq::empty()
    } else {
        let i = k - 1;
        let rest = positional_problems(f, params, args, i);
        if i < params.len() && i < args.len() && !accepts(params[i].ty, args[i].kind) {
            rest.push(error_view("E-DHN-SEM-043"@, "関数「"@ + f + "」の"@ + spec_decimal((i + 1) as nat)
                + "番目の引数は "@ + param_type_label(params[i].ty) + " が必要です。"@, args[i].span, None))
        } else {
            rest
        }
    }
}

/// The errors of the first `k` named arguments: a type the parameter does not accept, or a
/// name the signature does not have.
pub open spec fn named_arg_problems(f: Seq<char>, named: Seq<(String, ParamSpec)>,
    args: Seq<(String, CallArg)>, k: int) -> Seq<DiagnosticView>
    decreases k,
{
    if k <= 0 {
        Seq::empty()
    } else {
        let i = k - 1;
        let rest = named_arg_problems(f, named, args, i);
        let (n, a) = (args[i].0@, args[i].1);
        match named_param(named, n) {
            Some(p) => if accepts(p.ty, a.kind) {
                rest
            } else {
                rest.push(error_view("E-DHN-SEM-044"@, "関数「"@ + f + "」の名前付き引数「"@ + n + "」は "@
                    + param_type_label(p.ty) + " が必要です。"@, a.span, None))
            },
            None => rest.push(error_view("E-DHN-SEM-045"@, "関数「"@ + f + "」に「"@ + n
                + "」という名前付き引数はありません。"@, a.span, Some("関数定義の名前付き引数名を確認してください。"@))),
        }
    }
}

/// The errors for the first `k` named parameters that are required but not given.
pub open spec fn missing_named_problems(f: Seq<char>, named: Seq<(String, ParamSpec)>,
    args: Seq<(String, CallArg)>, span: Span, k: int) -> Seq<DiagnosticView>
    decreases k,
{
    if k <= 0 {
        Seq::empty()
    } else {
        let i = k - 1;
        let rest = missing_named_problems(f, named, args, span, i);
        if named[i].1.required && !has_named_arg(args, named[i].0@) {
            rest.push(error_view("E-DHN-SEM-046"@, "関数「"@ + f + "」の名前付き引数「"@ + named[i].0@
                + "」が不足しています。"@, span, None))
        } else {
            rest
        }
    }
}

/// The problems of a call to a known function, in order: too few positional arguments, too
/// many, each positional argument of the wrong type, each named argument of the wrong type
/// or unknown name, each missing required named argument, and a call used as a value of a
/// function that returns none.
pub open spec fn call_problems(spec: FunctionSpec, call: CallShape, used_as_expr: bool) -> Seq<DiagnosticView> {
    let f = spec.name@;
    too_few_problem(spec, call) + too_many_problem(spec, call) + positional_problems(f,
        spec.positional@, call.positional@, call.positional@.len() as int) + named_arg_problems(f,
        spec.named@, call.named@, call.named@.len() as int) + missing_named_problems(f, spec.named@,
        call.named@, call.span, spec.named@.len() as int) + no_value_problem(spec, call, used_as_expr)
}

/// The error for a call with fewer positional arguments than required ones.
pub open spec fn too_few_problem(spec: FunctionSpec, call: CallShape) -> Seq<DiagnosticView> {
    let required = required_count(spec.positional@);
    if call.positional@.len() < required {
        seq![error_view("E-DHN-SEM-041"@, "関数「"@ + spec.name@ + "」の位置引数が不足しています。最低"@
            + spec_decimal(required) + "個必要です。"@, call.span, Some("不足している引数を追加してください。"@))]
    } else {
        Seq::empty()
    }
}

/// The error for a call with more positional arguments than parameters.
pub open spec fn too_many_problem(spec: FunctionSpec, call: CallShape) -> Seq<DiagnosticView> {
    if call.positional@.len() > spec.positional@.len() {
        seq![error_view("E-DHN-SEM-042"@, "関数「"@ + spec.name@ + "」の位置引数が多すぎます。最大"@
            + spec_decimal(spec.positional@.len()) + "個です。"@, call.span,
            Some("余分な引数を削除するか、名前付き引数として定義してください。"@))]
    } else {
        Seq::empty()
    }
}

/// The error for using as a value a call of a function that returns none.
pub open spec fn no_value_problem(spec: FunctionSpec, call: CallShape, used_as_expr: bool) -> Seq<DiagnosticView> {
    if used_as_expr && spec.return_type is None {
        seq![error_view("E-DHN-SEM-047"@, "関数「"@ + spec.name@ + "」は戻り値を返さないため、式の中では使えません。"@,
            call.span, Some("独立した行で呼び出すか、戻り値を持つ関数定義に変更してください。"@))]
    } else {
        Seq::empty()
    }
}

/// The problems of a call: an unknown function is an error only in strict mode.
pub open spec fn spec_validate_call(registry: Map<Seq<char>, FunctionSpec>, mode: ValidationMode,
    call: CallShape, used_as_expr: bool) -> Seq<DiagnosticView> {
    if registry.dom().contains(call.name.value@) {
        call_problems(registry[call.name.value@], call, used_as_expr)
    } else if mode == ValidationMode::Strict {
        seq![error_view("E-DHN-SEM-040"@, "未知の関数「"@ + call.name.value@ + "」です。"@, call.name.span,
            Some("World Packの関数定義に追加するか、関数名の誤字を直してください。"@))]
    } else {
        Seq::empty()
    }
}

/// The text of `prefix`, `n` in decimal, and `suffix`.
fn text_with_number(prefix: &String, n: usize, suffix: &str) -> (s: String)
    ensures
        s@ == prefix@ + spec_decimal(n as nat) + suffix@,
{
    let mut s = prefix.clone();
    let digits = decimal_chars(n);
    let d = string_of(digits.as_slice());
    s.append(d.as_str());
    s.append(suffix);
    s
}

/// `関数「f」` followed by `rest`.
fn function_text(f: &String, rest: &str) -> (s: String)
    ensures
        s@ == "関数「"@ + f@ + rest@,
{
    let mut s = "関数「".to_owned();
    s.append(f.as_str());
    s.append(rest);
    s
}

/// Whether the call has a named argument of the name.
fn call_has_named(args: &Vec<(String, CallArg)>, name: &String) -> (b: bool)
    ensures
        b == has_named_arg(args@, name@),
{
    let key = chars_of(name.as_str());
    let mut i: usize = 0;
    while i < args.len()
        invariant
            key@ == name@,
            i <= args@.len(),
            forall|k: int| 0 <= k < i ==> #[trigger] args@[k].0@ != name@,
        decreases args@.len() - i,
    {
        let other = chars_of(args[i].0.as_str());
        if chars_eq(other.as_slice(), key.as_slice()) {
            return true;
        }
        i += 1;
    }
    false
}

/// The first named parameter of the name.
fn find_named_param(named: &Vec<(String, ParamSpec)>, name: &String) -> (r: Option<usize>)
    ensures
        match named_param(named@, name@) {
            Some(p) => r matches Some(i) && i < named@.len() && named@[i as int].1 == p,
            None => r is None,
        },
{
    let key = chars_of(name.as_str());
    let mut i: usize = 0;
    proof {
        assert(named@.skip(0) =~= named@);
    }
    while i < named.len()
        invariant
            key@ == name@,
            i <= named@.len(),
            named_param(named@, name@) == named_param(named@.skip(i as int), name@),
        decreases named@.len() - i,
    {
        let other = chars_of(named[i].0.as_str());
        proof {
            assert(named@.skip(i as int)[0] == named@[i as int]);
            assert(named@.skip(i as int).drop_first() =~= named@.skip(i + 1));
        }
        if chars_eq(other.as_slice(), key.as_slice()) {
            return Some(i);
        }
        i += 1;
    }
    None
}

/// Checks a call against its signature, found by the call's name.
fn check_call(spec: &FunctionSpec, call: &CallShape, used_as_expr: bool) -> (r: Vec<DaihonDiagnostic>)
    ensures
        diagnostic_views(r@) == call_problems(*spec, *call, used_as_expr),
{
    let mut out: Vec<DaihonDiagnostic> = Vec::new();
    let mut required: usize = 0;
    let mut i: usize = 0;
    while i < spec.positional.len()
        invariant
            i <= spec.positional@.len(),
            required <= i,
            required == required_count(spec.positional@.take(i as int)),
        decreases spec.positional@.len() - i,
    {
        proof {
            assert(spec.positional@.take(i as int + 1).drop_last() =~= spec.positional@.take(i as int));
        }
        if spec.positional[i].required {
            required += 1;
        }
        i += 1;
    }
    proof {
        assert(spec.positional@.take(spec.positional@.len() as int) =~= spec.positional@);
    }
    if call.positional.len() < required {
        let prefix = function_text(&spec.name, "」の位置引数が不足しています。最低");
        let message = text_with_number(&prefix, required, "個必要です。");
        let d = DaihonDiagnostic::error("E-DHN-SEM-041", message.as_str(), call.span).with_help(
            "不足している引数を追加してください。");
        proof {
            assert(diagnostic_view(d).labels =~= seq![(call.span, None::<Seq<char>>)]);
        }
        out.push(d);
    }
    if call.positional.len() > spec.positional.len() {
        let prefix = function_text(&spec.name, "」の位置引数が多すぎます。最大");
        let message = text_with_number(&prefix, spec.positional.len(), "個です。");
        let d = DaihonDiagnostic::error("E-DHN-SEM-042", message.as_str(), call.span).with_help(
            "余分な引数を削除するか、名前付き引数として定義してください。");
        proof {
            assert(diagnostic_view(d).labels =~= seq![(call.span, None::<Seq<char>>)]);
        }
        out.push(d);
    }
    let ghost head = diagnostic_views(out@);
    proof {
        assert(head =~= too_few_problem(*spec, *call) + too_many_problem(*spec, *call));
    }
    let mut k: usize = 0;
    while k < call.positional.len()
        invariant
            k <= call.positional@.len(),
            diagnostic_views(out@) == head + positional_problems(spec.name@, spec.positional@,
                call.positional@, k as int),
        decreases call.positional@.len() - k,
    {
        let ghost before = out@;
        let arg = call.positional[k];
        if k < spec.positional.len() {
            let ty = spec.positional[k].ty;
            if !param_accepts(ty, arg.kind) {
                let prefix = function_text(&spec.name, "」の");
                let mut message = text_with_number(&prefix, k + 1, "番目の引数は ");
                message.append(param_type_label_exec(ty));
                message.append(" が必要です。");
                let d = DaihonDiagnostic::error("E-DHN-SEM-043", message.as_str(), arg.span);
                proof {
                    assert(diagnostic_view(d).labels =~= seq![(arg.span, None::<Seq<char>>)]);
                    assert(d.message@ == "関数「"@ + spec.name@ + "」の"@
                        + spec_decimal((k + 1) as nat) + "番目の引数は "@ + param_type_label(ty)
                        + " が必要です。"@);
                    assert(diagnostic_view(d).code == "E-DHN-SEM-043"@);
                    assert(diagnostic_view(d).help == None::<Seq<char>>);
                    lemma_views_push(out@, d);
                }
                out.push(d);
            }
        }
        proof {
            assert(arg == call.positional@[k as int]);
            assert(diagnostic_views(out@) =~= head + positional_problems(spec.name@, spec.positional@,
                call.positional@, k + 1));
        }
        k += 1;
    }
    let ghost head2 = diagnostic_views(out@);
    let mut k: usize = 0;
    while k < call.named.len()
        invariant
            k <= call.named@.len(),
            diagnostic_views(out@) == head2 + named_arg_problems(spec.name@, spec.named@, call.named@,
                k as int),
        decreases call.named@.len() - k,
    {
        let name = &call.named[k].0;
        let arg = call.named[k].1;
        match find_named_param(&spec.named, name) {
            Some(p) => {
                let ty = spec.named[p].1.ty;
                if !param_accepts(ty, arg.kind) {
                    let mut message = function_text(&spec.name, "」の名前付き引数「");
                    message.append(name.as_str());
                    message.append("」は ");
                    message.append(param_type_label_exec(ty));
                    message.append(" が必要です。");
                    let d = DaihonDiagnostic::error("E-DHN-SEM-044", message.as_str(), arg.span);
                    proof {
                        assert(diagnostic_view(d).labels =~= seq![(arg.span, None::<Seq<char>>)]);
                        lemma_views_push(out@, d);
                    }
                    out.push(d);
                }
            },
            None => {
                let mut message = function_text(&spec.name, "」に「");
                message.append(name.as_str());
                message.append("」という名前付き引数はありません。");
                let d = DaihonDiagnostic::error("E-DHN-SEM-045", message.as_str(), arg.span).with_help(
                    "関数定義の名前付き引数名を確認してください。");
                proof {
                    assert(diagnostic_view(d).labels =~= seq![(arg.span, None::<Seq<char>>)]);
                    lemma_views_push(out@, d);
                }
                out.push(d);
            },
        }
        proof {
            assert(name@ == call.named@[k as int].0@);
            assert(arg == call.named@[k as int].1);
            assert(diagnostic_views(out@) =~= head2 + named_arg_problems(spec.name@, spec.named@,
                call.named@, k + 1));
        }
        k += 1;
    }
    let ghost head3 = diagnostic_views(out@);
    let mut k: usize = 0;
    while k < spec.named.len()
        invariant
            k <= spec.named@.len(),
            diagnostic_views(out@) == head3 + missing_named_problems(spec.name@, spec.named@,
                call.named@, call.span, k as int),
        decreases spec.named@.len() - k,
    {
        let name = &spec.named[k].0;
        if spec.named[k].1.required && !call_has_named(&call.named, name) {
            let mut message = function_text(&spec.name, "」の名前付き引数「");
            message.append(name.as_str());
            message.append("」が不足しています。");
            let d = DaihonDiagnostic::error("E-DHN-SEM-046", message.as_str(), call.span);
            proof {
                assert(diagnostic_view(d).labels =~= seq![(call.span, None::<Seq<char>>)]);
                lemma_views_push(out@, d);
            }
            out.push(d);
        }
        proof {
            assert(name@ == spec.named@[k as int].0@);
            assert(diagnostic_views(out@) =~= head3 + missing_named_problems(spec.name@, spec.named@,
                call.named@, call.span, k + 1));
        }
        k += 1;
    }
    let ghost head4 = diagnostic_views(out@);
    if used_as_expr && spec.return_type.is_none() {
        let message = function_text(&spec.name, "」は戻り値を返さないため、式の中では使えません。");
        let d = DaihonDiagnostic::error("E-DHN-SEM-047", message.as_str(), call.span).with_help(
            "独立した行で呼び出すか、戻り値を持つ関数定義に変更してください。");
        proof {
            assert(diagnostic_view(d).labels =~= seq![(call.span, None::<Seq<char>>)]);
        }
        out.push(d);
    }
    proof {
        assert(diagnostic_views(out@) =~= head4 + no_value_problem(*spec, *call, used_as_expr));
        assert(diagnostic_views(out@) =~= call_problems(*spec, *call, used_as_expr));
    }
    out
}

impl FunctionRegistry {
    /// The problems of a call: checked against the signature of its name; an unknown
    /// function is an error in strict mode and passes in permissive mode.
    pub fn validate_call(&self, call: &CallShape, used_as_expr: bool) -> (r: Vec<DaihonDiagnostic>)
        requires
            self.wf(),
        ensures
            diagnostic_views(r@) == spec_validate_call(self@, self.spec_mode(), *call, used_as_expr),
    {
        match self.get(call.name.value.as_str()) {
            Some(spec) => check_call(spec, call, used_as_expr),
            None => {
                let mut out: Vec<DaihonDiagnostic> = Vec::new();
                if self.mode == ValidationMode::Strict {
                    let mut message = "未知の関数「".to_owned();
                    message.append(call.name.value.as_str());
                    message.append("」です。");
                    let d = DaihonDiagnostic::error("E-DHN-SEM-040", message.as_str(), call.name.span)
                        .with_help("World Packの関数定義に追加するか、関数名の誤字を直してください。");
                    proof {
                        assert(diagnostic_view(d).labels =~= seq![(call.name.span, None::<Seq<char>>)]);
                    }
                    out.push(d);
                }
                proof {
                    assert(diagnostic_views(out@) =~= spec_validate_call(self@, self.spec_mode(), *call,
                        used_as_expr));
                }
                out
            },
        }
    }
}

// ---------------------------------------------------------------------------
// Calls as the signature check sees them
// ---------------------------------------------------------------------------

/// The kind of a call argument: a bare word, a literal of its kind, or another expression.
pub open spec fn arg_kind_of(a: FuncArg) -> ArgKind {
    match a {
        FuncArg::BareWord(_) => ArgKind::BareWord,
        FuncArg::Expr(Expr::Value(v)) => match v.value {
            LiteralValue::Number(_) => ArgKind::Number,
            LiteralValue::String(_) => ArgKind::String,
            LiteralValue::Boolean(_) => ArgKind::Boolean,
        },
        FuncArg::Expr(_) => ArgKind::Expr,
    }
}

/// A call argument by its kind and span.
pub open spec fn call_arg_of(a: FuncArg) -> CallArg {
    CallArg {
        kind: arg_kind_of(a),
        span: match a {
            FuncArg::BareWord(w) => w.span,
            FuncArg::Expr(e) => e.spec_span(),
        },
    }
}

/// An argument by its kind and span.
fn call_arg(a: &FuncArg) -> (r: CallArg)
    ensures
        r == call_arg_of(*a),
{
    match a {
        FuncArg::BareWord(w) => CallArg { kind: ArgKind::BareWord, span: w.span },
        FuncArg::Expr(e) => {
            let kind = match e {
                Expr::Value(v) => match &v.value {
                    LiteralValue::Number(_) => ArgKind::Number,
                    LiteralValue::String(_) => ArgKind::String,
                    LiteralValue::Boolean(_) => ArgKind::Boolean,
                },
                _ => ArgKind::Expr,
            };
            CallArg { kind, span: e.span() }
        },
    }
}

/// The call as the signature check sees it: the same name, spans and argument order, each
/// argument by its kind and span.
pub fn call_shape(call: &FunctionCall) -> (s: CallShape)
    ensures
        s.name.value@ == call.name.value@,
        s.name.span == call.name.span,
        s.span == call.span,
        s.positional@ == call.positional@.map_values(|a: FuncArg| call_arg_of(a)),
        s.named@.len() == call.named@.len(),
        forall|k: int| 0 <= k < call.named@.len() ==> (#[trigger] s.named@[k]).0@ == call.named@[k].0@
            && s.named@[k].1 == call_arg_of(call.named@[k].1),
{
    let mut positional: Vec<CallArg> = Vec::new();
    let mut i: usize = 0;
    while i < call.positional.len()
        invariant
            i <= call.positional@.len(),
            positional@ == call.positional@.take(i as int).map_values(|a: FuncArg| call_arg_of(a)),
        decreases call.positional@.len() - i,
    {
        positional.push(call_arg(&call.positional[i]));
        proof {
            assert(call.positional@.take(i + 1).map_values(|a: FuncArg| call_arg_of(a))
                =~= call.positional@.take(i as int).map_values(|a: FuncArg| call_arg_of(a)).push(
                call_arg_of(call.positional@[i as int]),
            ));
        }
        i += 1;
    }
    proof {
        assert(call.positional@.take(call.positional@.len() as int) =~= call.positional@);
    }
    let mut named: Vec<(String, CallArg)> = Vec::new();
    let mut j: usize = 0;
    while j < call.named.len()
        invariant
            j <= call.named@.len(),
            named@.len() == j,
            forall|k: int| 0 <= k < j ==> (#[trigger] named@[k]).0@ == call.named@[k].0@
                && named@[k].1 == call_arg_of(call.named@[k].1),
        decreases call.named@.len() - j,
    {
        let entry = &call.named[j];
        let key = string_of(chars_of(entry.0.as_str()).as_slice());
        named.push((key, call_arg(&entry.1)));
        j += 1;
    }
    let name = string_of(chars_of(call.name.value.as_str()).as_slice());
    CallShape { name: Spanned::new(name, call.name.span), positional, named, span: call.span }
}

} // verus!
