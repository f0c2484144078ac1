use vstd::prelude::*;
use crate::text::push_decimal;
use crate::text::decimal;
use crate::text::{to_uppercase, uppercase, lemma_decimal_injective, lemma_decimal_round_trip};

verus! {

/// A value written in a `test_fn` attribute: a handle the caller picked for
/// it, and its text when it is a string literal.
pub struct ParamValue {
    pub id: u64,
    pub text: Option<String>,
}

/// One `name = ...` entry of a `test_fn` attribute.
pub struct ParamSpec {
    pub name: String,
    pub values: Vec<ParamValue>,
    /// Written with `[...]`: the parameter may also be absent.
    pub optional: bool,
}

/// How the values after `name =` were written.
pub enum ValueList {
    /// `{a, b, ...}`: each value in turn.
    Braced(Vec<ParamValue>),
    /// `[a, b, ...]`: absent, or each value in turn.
    Bracketed(Vec<ParamValue>),
    /// A single expression.
    Single(ParamValue),
}

/// Why a `test_fn` expansion is refused.
pub enum MacroError {
    /// A `skip` entry whose first value is not a string literal.
    SkipNotString,
    /// A `self` parameter on a parameterized test.
    SelfParameter,
    /// A parameter that is a pattern rather than a plain name.
    PatternParameter,
    /// A parameter with no entry in the attribute.
    MissingValue(String),
    /// A required parameter entry without a value.
    UnwrapNone,
}

impl MacroError {
    /// The message the expansion is refused with.
    pub fn message(&self) -> (m: String)
        ensures
            m@ == match *self {
                MacroError::SkipNotString => "skip value must be a string literal"@,
                MacroError::SelfParameter => "test_fn does not support self parameters"@,
                MacroError::PatternParameter => "test_fn requires simple parameter names"@,
                MacroError::MissingValue(name) => "missing attribute value for parameter `"@ + name@ + "`"@,
                MacroError::UnwrapNone => "called `Option::unwrap()` on a `None` value"@,
            },
    {
        match self {
            MacroError::SkipNotString => "skip value must be a string literal".to_string(),
            MacroError::SelfParameter => "test_fn does not support self parameters".to_string(),
            MacroError::PatternParameter => "test_fn requires simple parameter names".to_string(),
            MacroError::MissingValue(name) => {
                let mut m = "missing attribute value for parameter `".to_string();
                m.append(name.as_str());
                m.append("`");
                m
            },
            MacroError::UnwrapNone => "called `Option::unwrap()` on a `None` value".to_string(),
        }
    }
}

impl ParamSpec {
    /// The entry `name = list`.
    pub fn from_syntax(name: String, list: ValueList) -> (s: ParamSpec)
        ensures
            s.name == name,
            match list {
                ValueList::Braced(v) => s.values == v && !s.optional,
                ValueList::Bracketed(v) => s.values == v && s.optional,
                ValueList::Single(x) => s.values@ == seq![x] && !s.optional,
            },
    {
        match list {
            ValueList::Braced(v) => ParamSpec { name, values: v, optional: false },
            ValueList::Bracketed(v) => ParamSpec { name, values: v, optional: true },
            ValueList::Single(x) => {
                let mut v: Vec<ParamValue> = Vec::new();
                v.push(x);
                ParamSpec { name, values: v, optional: false }
            },
        }
    }
}

/// The entry names the skip reason rather than a parameter.
pub open spec fn is_skip(s: ParamSpec) -> bool {
    s.name@ == "skip"@
}

/// The string a `skip` entry gives: the text of its first value, when that is
/// a string literal.
pub open spec fn skip_text(s: ParamSpec) -> Option<String> {
    if s.values@.len() > 0 {
        s.values@[0].text
    } else {
        None
    }
}

/// Every `skip` entry of `specs` gives a string.
pub open spec fn skips_well_formed(specs: Seq<ParamSpec>) -> bool {
    forall|i: int| 0 <= i < specs.len() && is_skip(#[trigger] specs[i]) ==> skip_text(specs[i]) is Some
}

/// The entries of `specs` that are not `skip`, in order.
pub open spec fn kept_specs(specs: Seq<ParamSpec>) -> Seq<ParamSpec>
    decreases specs.len(),
{
    if specs.len() == 0 {
        seq![]
    } else if is_skip(specs.last()) {
        kept_specs(specs.drop_last())
    } else {
        kept_specs(specs.drop_last()).push(specs.last())
    }
}

/// The skip reason `specs` gives: that of its last `skip` entry.
pub open spec fn skip_reason(specs: Seq<ParamSpec>) -> Option<String>
    decreases specs.len(),
{
    if specs.len() == 0 {
        None
    } else if is_skip(specs.last()) {
        skip_text(specs.last())
    } else {
        skip_reason(specs.drop_last())
    }
}

fn is_skip_exec(s: &ParamSpec) -> (r: bool)
    ensures
        r == is_skip(*s),
{
    let skip = "skip".to_string();
    s.name == skip
}

fn skip_text_exec(s: &ParamSpec) -> (r: Option<String>)
    ensures
        r == skip_text(*s),
{
    if s.values.len() > 0 {
        match &s.values[0].text {
            Some(t) => Some(t.clone()),
            None => None,
        }
    } else {
        None
    }
}

/// Whether every `skip` entry of `specs` gives a string; the refusal
/// `extract_skip` makes when one does not.
pub fn check_skips(specs: &Vec<ParamSpec>) -> (r: Result<(), MacroError>)
    ensures
        r is Ok <==> skips_well_formed(specs@),
        r matches Err(e) ==> e is SkipNotString,
{
    let mut i: usize = 0;
    while i < specs.len()
        invariant
            i <= specs@.len(),
            forall|k: int| 0 <= k < i && is_skip(#[trigger] specs@[k]) ==> skip_text(specs@[k]) is Some,
        decreases specs@.len() - i,
    {
        if is_skip_exec(&specs[i]) && skip_text_exec(&specs[i]).is_none() {
            return Err(MacroError::SkipNotString);
        }
        i = i + 1;
    }
    Ok(())
}

/// Splits the `skip` entries off `specs`: the other entries, in order, and
/// the reason the last `skip` entry gives. Every `skip` entry must give a
/// string (`check_skips` tells).
pub fn extract_skip(specs: Vec<ParamSpec>) -> (r: (Vec<ParamSpec>, Option<String>))
    requires
        skips_well_formed(specs@),
    ensures
        r.0@ == kept_specs(specs@),
        r.1 == skip_reason(specs@),
{
    let ghost all = specs@;
    let mut remaining: Vec<ParamSpec> = Vec::new();
    let mut reason: Option<String> = None;
    let mut i: usize = 0;
    let mut pending = specs;
    let n = pending.len();
    while i < n
        invariant
            n == all.len(),
            i <= n,
            pending@ == all.skip(i as int),
            all == specs@,
            skips_well_formed(all),
            remaining@ == kept_specs(all.take(i as int)),
            reason == skip_reason(all.take(i as int)),
        decreases n - i,
    {
        proof {
            assert(all.take(i + 1).drop_last() =~= all.take(i as int));
            assert(all.take(i + 1).last() == all[i as int]);
            assert(pending@[0] == all[i as int]);
        }
        let spec = pending.remove(0);
        proof {
            assert(pending@ =~= all.skip(i + 1));
        }
        if is_skip_exec(&spec) {
            proof {
                assert(is_skip(all[i as int]));
            }
            reason = skip_text_exec(&spec);
        } else {
            remaining.push(spec);
        }
        i = i + 1;
    }
    proof {
        assert(all.take(n as int) =~= all);
    }
    (remaining, reason)
}

/// One parameter's value in one combination: its name, the handle of its
/// value (`None` for an absent optional parameter), and whether it is optional.
pub struct ComboEntry {
    pub name: String,
    pub value: Option<u64>,
    pub optional: bool,
}

/// The choices an entry offers, in order: absent first when it is optional,
/// then each of its values.
pub open spec fn choices(s: ParamSpec) -> Seq<Option<u64>> {
    (if s.optional { seq![None] } else { seq![] }) + s.values@.map_values(|v: ParamValue| Some(v.id))
}

pub open spec fn entry_for(s: ParamSpec, c: Option<u64>) -> ComboEntry {
    ComboEntry { name: s.name, value: c, optional: s.optional }
}

/// `combo` extended by each choice of `s`, in order.
pub open spec fn extend_one(combo: Seq<ComboEntry>, s: ParamSpec) -> Seq<Seq<ComboEntry>> {
    choices(s).map_values(|c: Option<u64>| combo.push(entry_for(s, c)))
}

/// Each of `combos` extended by each choice of `s`, combination by combination.
pub open spec fn extend_all(combos: Seq<Seq<ComboEntry>>, s: ParamSpec) -> Seq<Seq<ComboEntry>>
    decreases combos.len(),
{
    if combos.len() == 0 {
        seq![]
    } else {
        extend_all(combos.drop_last(), s) + extend_one(combos.last(), s)
    }
}

/// The cartesian product of the choices of `specs`, earlier entries varying
/// slowest.
pub open spec fn product(specs: Seq<ParamSpec>) -> Seq<Seq<ComboEntry>>
    decreases specs.len(),
{
    if specs.len() == 0 {
        seq![seq![]]
    } else {
        extend_all(product(specs.drop_last()), specs.last())
    }
}

pub open spec fn combo_views(v: Seq<Vec<ComboEntry>>) -> Seq<Seq<ComboEntry>> {
    v.map_values(|c: Vec<ComboEntry>| c@)
}

fn copy_entry(e: &ComboEntry) -> (r: ComboEntry)
    ensures
        r == *e,
{
    ComboEntry { name: e.name.clone(), value: e.value, optional: e.optional }
}

fn copy_combo(c: &Vec<ComboEntry>) -> (r: Vec<ComboEntry>)
    ensures
        r@ == c@,
{
    let mut r: Vec<ComboEntry> = Vec::new();
    let mut i: usize = 0;
    while i < c.len()
        invariant
            i <= c@.len(),
            r@ == c@.take(i as int),
        decreases c@.len() - i,
    {
        r.push(copy_entry(&c[i]));
        proof {
            assert(r@ =~= c@.take(i + 1));
        }
        i = i + 1;
    }
    proof {
        assert(c@.take(c@.len() as int) =~= c@);
    }
    r
}

proof fn lemma_extend_all_step(combos: Seq<Seq<ComboEntry>>, i: int, s: ParamSpec)
    requires
        0 <= i < combos.len(),
    ensures
        extend_all(combos.take(i + 1), s) == extend_all(combos.take(i), s) + extend_one(combos[i], s),
{
    assert(combos.take(i + 1).drop_last() =~= combos.take(i));
}

/// All combinations of the choices of `specs`: one entry per element of
/// `specs`, in order, the first element varying slowest.
pub fn cartesian_product(specs: &Vec<ParamSpec>) -> (r: Vec<Vec<ComboEntry>>)
    ensures
        combo_views(r@) == product(specs@),
{
    let mut result: Vec<Vec<ComboEntry>> = Vec::new();
    result.push(Vec::new());
    proof {
        assert(combo_views(result@) =~= product(specs@.take(0)));
    }
    let mut k: usize = 0;
    while k < specs.len()
        invariant
            k <= specs@.len(),
            combo_views(result@) == product(specs@.take(k as int)),
        decreases specs@.len() - k,
    {
        let s = &specs[k];
        let ghost prev = combo_views(result@);
        let mut next: Vec<Vec<ComboEntry>> = Vec::new();
        let mut i: usize = 0;
        proof {
            assert(prev.take(0) =~= seq![]);
            assert(combo_views(next@) =~= extend_all(prev.take(0), *s));
        }
        while i < result.len()
            invariant
                k < specs@.len(),
                s == specs@[k as int],
                prev == combo_views(result@),
                i <= result@.len(),
                combo_views(next@) == extend_all(prev.take(i as int), *s),
            decreases result@.len() - i,
        {
            let combo = &result[i];
            let ghost base = combo_views(next@);
            let ghost opts = choices(*s);
            if s.optional {
                let mut c = copy_combo(combo);
                c.push(ComboEntry { name: s.name.clone(), value: None, optional: s.optional });
                next.push(c);
            }
            let ghost skipped: int = if s.optional { 1 } else { 0 };
            proof {
                assert(combo_views(next@) =~= base + extend_one(prev[i as int], *s).take(skipped));
            }
            let mut j: usize = 0;
            while j < s.values.len()
                invariant
                    k < specs@.len(),
                    s == specs@[k as int],
                    prev == combo_views(result@),
                    i < result@.len(),
                    combo == result@[i as int],
                    opts == choices(*s),
                    skipped == (if s.optional { 1int } else { 0int }),
                    j <= s.values@.len(),
                    combo_views(next@) == base + extend_one(prev[i as int], *s).take(skipped + j),
                decreases s.values@.len() - j,
            {
                let mut c = copy_combo(combo);
                c.push(ComboEntry { name: s.name.clone(), value: Some(s.values[j].id), optional: s.optional });
                let ghost before = next@;
                next.push(c);
                proof {
                    assert(opts[skipped + j] == Some(s.values@[j as int].id));
                    assert(prev[i as int] == combo@);
                    assert(extend_one(prev[i as int], *s)[skipped + j] == combo@.push(entry_for(*s, Some(s.values@[j as int].id))));
                    assert(next@.last()@ == combo@.push(entry_for(*s, Some(s.values@[j as int].id))));
                    assert(combo_views(next@) =~= combo_views(before).push(next@.last()@));
                    assert(extend_one(prev[i as int], *s).len() == skipped + s.values@.len());
                    assert(extend_one(prev[i as int], *s).take(skipped + j + 1) =~= extend_one(prev[i as int], *s).take(skipped + j).push(extend_one(prev[i as int], *s)[skipped + j]));
                    assert(combo_views(next@) =~= base + extend_one(prev[i as int], *s).take(skipped + j + 1));
                }
                j = j + 1;
            }
            proof {
                assert(extend_one(prev[i as int], *s).take(skipped + j) =~= extend_one(prev[i as int], *s));
                lemma_extend_all_step(prev, i as int, *s);
            }
            i = i + 1;
        }
        proof {
            assert(prev.take(result@.len() as int) =~= prev);
            assert(specs@.take(k + 1).drop_last() =~= specs@.take(k as int));
        }
        result = next;
        k = k + 1;
    }
    proof {
        assert(specs@.take(specs@.len() as int) =~= specs@);
    }
    result
}


/// A parameter of the test function.
pub enum ParamShape {
    /// A plain named parameter.
    Named(String),
    /// `self` in one of its forms.
    Receiver,
    /// A parameter written as some other pattern.
    Pattern,
}

/// How a parameter is bound in one instance of a parameterized test.
pub enum BindKind {
    /// To the value with this handle.
    Value(u64),
    /// To `Some` of the value with this handle.
    SomeValue(u64),
    /// To `None`.
    NoneValue,
}

/// The binding of one parameter.
pub struct Binding {
    pub name: String,
    pub kind: BindKind,
}

/// `i` is the first position in `combo` whose entry is named `name`.
pub open spec fn first_match_at(combo: Seq<ComboEntry>, name: Seq<char>, i: int) -> bool {
    &&& 0 <= i < combo.len()
    &&& combo[i].name@ == name
    &&& forall|j: int| 0 <= j < i ==> (#[trigger] combo[j]).name@ != name
}

/// The binding an entry gives: `Some`/`None` for an optional parameter, the
/// value itself for a required one (none if a required entry has no value).
pub open spec fn entry_kind(e: ComboEntry) -> Option<BindKind> {
    if e.optional {
        match e.value {
            Some(v) => Some(BindKind::SomeValue(v)),
            None => Some(BindKind::NoneValue),
        }
    } else {
        match e.value {
            Some(v) => Some(BindKind::Value(v)),
            None => None,
        }
    }
}

/// The binding of parameter `p` from the first entry of `combo` named like it.
pub open spec fn param_binding(p: ParamShape, combo: Seq<ComboEntry>) -> Result<Binding, MacroError> {
    match p {
        ParamShape::Receiver => Err(MacroError::SelfParameter),
        ParamShape::Pattern => Err(MacroError::PatternParameter),
        ParamShape::Named(n) => {
            if exists|i: int| first_match_at(combo, n@, i) {
                let i = choose|i: int| first_match_at(combo, n@, i);
                match entry_kind(combo[i]) {
                    Some(k) => Ok(Binding { name: n, kind: k }),
                    None => Err(MacroError::UnwrapNone),
                }
            } else {
                Err(MacroError::MissingValue(n))
            }
        },
    }
}

/// The bindings of `params`, in order, or the error of the first parameter
/// that has none.
pub open spec fn bindings_spec(params: Seq<ParamShape>, combo: Seq<ComboEntry>) -> Result<Seq<Binding>, MacroError>
    decreases params.len(),
{
    if params.len() == 0 {
        Ok(seq![])
    } else {
        match bindings_spec(params.drop_last(), combo) {
            Err(e) => Err(e),
            Ok(bs) => match param_binding(params.last(), combo) {
                Err(e) => Err(e),
                Ok(b) => Ok(bs.push(b)),
            },
        }
    }
}

fn find_entry(combo: &Vec<ComboEntry>, name: &String) -> (r: Option<usize>)
    ensures
        match r {
            Some(i) => first_match_at(combo@, name@, i as int),
            None => !exists|i: int| first_match_at(combo@, name@, i),
        },
{
    let mut i: usize = 0;
    while i < combo.len()
        invariant
            i <= combo@.len(),
            forall|j: int| 0 <= j < i ==> (#[trigger] combo@[j]).name@ != name@,
        decreases combo@.len() - i,
    {
        if combo[i].name == *name {
            return Some(i);
        }
        i = i + 1;
    }
    proof {
        assert forall|k: int| !first_match_at(combo@, name@, k) by {
            if 0 <= k < combo@.len() {
                assert(combo@[k].name@ != name@);
            }
        }
    }
    None
}

proof fn lemma_first_match_unique(combo: Seq<ComboEntry>, name: Seq<char>, i: int, k: int)
    requires
        first_match_at(combo, name, i),
        first_match_at(combo, name, k),
    ensures
        i == k,
{
    if i < k {
        assert(combo[i].name@ != name);
    } else if k < i {
        assert(combo[k].name@ != name);
    }
}

fn bind_param(p: &ParamShape, combo: &Vec<ComboEntry>) -> (r: Result<Binding, MacroError>)
    ensures
        r == param_binding(*p, combo@),
{
    match p {
        ParamShape::Receiver => Err(MacroError::SelfParameter),
        ParamShape::Pattern => Err(MacroError::PatternParameter),
        ParamShape::Named(n) => {
            match find_entry(combo, n) {
                None => Err(MacroError::MissingValue(n.clone())),
                Some(i) => {
                    proof {
                        let c = choose|k: int| first_match_at(combo@, n@, k);
                        lemma_first_match_unique(combo@, n@, i as int, c);
                    }
                    let e = &combo[i];
                    if e.optional {
                        match e.value {
                            Some(v) => Ok(Binding { name: n.clone(), kind: BindKind::SomeValue(v) }),
                            None => Ok(Binding { name: n.clone(), kind: BindKind::NoneValue }),
                        }
                    } else {
                        match e.value {
                            Some(v) => Ok(Binding { name: n.clone(), kind: BindKind::Value(v) }),
                            None => Err(MacroError::UnwrapNone),
                        }
                    }
                },
            }
        },
    }
}

fn try_bindings(params: &Vec<ParamShape>, combo: &Vec<ComboEntry>) -> (r: Result<Vec<Binding>, MacroError>)
    ensures
        match r {
            Ok(bs) => bindings_spec(params@, combo@) == Ok::<Seq<Binding>, MacroError>(bs@),
            Err(e) => bindings_spec(params@, combo@) == Err::<Seq<Binding>, MacroError>(e),
        },
{
    let mut bs: Vec<Binding> = Vec::new();
    let mut i: usize = 0;
    proof {
        assert(params@.take(0) =~= seq![]);
    }
    while i < params.len()
        invariant
            i <= params@.len(),
            bindings_spec(params@.take(i as int), combo@) == Ok::<Seq<Binding>, MacroError>(bs@),
        decreases params@.len() - i,
    {
        proof {
            assert(params@.take(i + 1).drop_last() =~= params@.take(i as int));
        }
        match bind_param(&params[i], combo) {
            Ok(b) => {
                bs.push(b);
            },
            Err(e) => {
                proof {
                    lemma_bindings_err_persists(params@, combo@, i + 1);
                }
                return Err(e);
            },
        }
        i = i + 1;
    }
    proof {
        assert(params@.take(params@.len() as int) =~= params@);
    }
    Ok(bs)
}

/// Whether `params` can be bound in the combination `combo`: `None`, or the
/// refusal `make_bindings` would meet first.
pub fn check_bindings(params: &Vec<ParamShape>, combo: &Vec<ComboEntry>) -> (r: Option<MacroError>)
    ensures
        r == match bindings_spec(params@, combo@) {
            Ok(_) => None::<MacroError>,
            Err(e) => Some(e),
        },
{
    match try_bindings(params, combo) {
        Ok(_) => None,
        Err(e) => Some(e),
    }
}

/// The bindings of `params` in the combination `combo`: each parameter takes
/// the first entry of its name. Every parameter must be a plain name with an
/// entry that gives it a value (`check_bindings` tells).
pub fn make_bindings(params: &Vec<ParamShape>, combo: &Vec<ComboEntry>) -> (bs: Vec<Binding>)
    requires
        bindings_spec(params@, combo@) is Ok,
    ensures
        bindings_spec(params@, combo@) == Ok::<Seq<Binding>, MacroError>(bs@),
{
    match try_bindings(params, combo) {
        Ok(bs) => bs,
        Err(_) => Vec::new(),
    }
}

proof fn lemma_bindings_err_persists(params: Seq<ParamShape>, combo: Seq<ComboEntry>, n: int)
    requires
        0 <= n <= params.len(),
        bindings_spec(params.take(n), combo) is Err,
    ensures
        bindings_spec(params, combo) == bindings_spec(params.take(n), combo),
    decreases params.len() - n,
{
    if n < params.len() {
        assert(params.take(n + 1).drop_last() =~= params.take(n));
        lemma_bindings_err_persists(params, combo, n + 1);
    } else {
        assert(params.take(n) =~= params);
    }
}


/// The entry shows in the label: it is not an absent optional parameter.
pub open spec fn is_visible(e: ComboEntry) -> bool {
    !(e.optional && e.value is None)
}

/// The entries of `combo` that show in the label, in order.
pub open spec fn visible(combo: Seq<ComboEntry>) -> Seq<ComboEntry>
    decreases combo.len(),
{
    if combo.len() == 0 {
        seq![]
    } else if is_visible(combo.last()) {
        visible(combo.drop_last()).push(combo.last())
    } else {
        visible(combo.drop_last())
    }
}

/// The label shows exactly the entries that are not absent optional
/// parameters, in their order in the combination.
pub proof fn lemma_visible(combo: Seq<ComboEntry>)
    ensures
        forall|i: int| 0 <= i < visible(combo).len() ==> is_visible(#[trigger] visible(combo)[i])
            && combo.contains(visible(combo)[i]),
        (forall|i: int| 0 <= i < combo.len() ==> is_visible(#[trigger] combo[i])) ==> visible(combo) == combo,
    decreases combo.len(),
{
    if combo.len() > 0 {
        let init = combo.drop_last();
        lemma_visible(init);
        let v = visible(combo);
        assert forall|i: int| 0 <= i < v.len() implies is_visible(#[trigger] v[i]) && combo.contains(v[i]) by {
            if i < visible(init).len() {
                assert(v[i] == visible(init)[i]);
                let j = choose|j: int| 0 <= j < init.len() && init[j] == v[i];
                assert(combo[j] == v[i]);
            } else {
                assert(combo[combo.len() - 1] == v[i]);
            }
        }
        if forall|i: int| 0 <= i < combo.len() ==> is_visible(#[trigger] combo[i]) {
            assert forall|i: int| 0 <= i < init.len() implies is_visible(#[trigger] init[i]) by {
                assert(init[i] == combo[i]);
            }
            assert(is_visible(combo[combo.len() - 1]));
            assert(combo == init.push(combo.last()));
        }
    }
}

/// The placeholder of one entry in the label template: `name={}`.
pub open spec fn key_part(e: ComboEntry) -> Seq<char> {
    e.name@ + "={}"@
}

/// The placeholders of `vis`, separated by `, `.
pub open spec fn joined_keys(vis: Seq<ComboEntry>) -> Seq<char>
    decreases vis.len(),
{
    if vis.len() == 0 {
        seq![]
    } else if vis.len() == 1 {
        key_part(vis[0])
    } else {
        joined_keys(vis.drop_last()) + ", "@ + key_part(vis.last())
    }
}

/// A value the label shows: the parameter's name, and whether it is unwrapped
/// from its `Option` first.
pub struct FormatArg {
    pub name: String,
    pub unwrap: bool,
}

/// How an instance's label is made.
pub enum LabelPlan {
    /// The test's own name.
    Plain,
    /// The template filled in with the values of `args`, in order.
    Format { template: String, args: Vec<FormatArg> },
}

pub enum LabelView {
    Plain,
    Format(Seq<char>, Seq<(Seq<char>, bool)>),
}

impl View for LabelPlan {
    type V = LabelView;

    open spec fn view(&self) -> LabelView {
        match self {
            LabelPlan::Plain => LabelView::Plain,
            LabelPlan::Format { template, args } => LabelView::Format(
                template@,
                args@.map_values(|a: FormatArg| (a.name@, a.unwrap)),
            ),
        }
    }
}

/// The label of the instance of test `name` for `combo`: the name alone when
/// no entry shows, else `name(k1={}, k2={})` with the shown entries' values.
pub open spec fn label_spec(name: Seq<char>, combo: Seq<ComboEntry>) -> LabelView {
    let vis = visible(combo);
    if vis.len() == 0 {
        LabelView::Plain
    } else {
        LabelView::Format(
            name + "("@ + joined_keys(vis) + ")"@,
            vis.map_values(|e: ComboEntry| (e.name@, e.optional)),
        )
    }
}

fn visible_entries(combo: &Vec<ComboEntry>) -> (v: Vec<ComboEntry>)
    ensures
        v@ == visible(combo@),
{
    let mut v: Vec<ComboEntry> = Vec::new();
    let mut i: usize = 0;
    proof {
        assert(combo@.take(0) =~= seq![]);
    }
    while i < combo.len()
        invariant
            i <= combo@.len(),
            v@ == visible(combo@.take(i as int)),
        decreases combo@.len() - i,
    {
        proof {
            assert(combo@.take(i + 1).drop_last() =~= combo@.take(i as int));
        }
        let e = &combo[i];
        if !(e.optional && e.value.is_none()) {
            v.push(copy_entry(e));
        }
        i = i + 1;
    }
    proof {
        assert(combo@.take(combo@.len() as int) =~= combo@);
    }
    v
}

/// The label of the instance of test `name` for the combination `combo`.
pub fn make_label_code(name: &str, combo: &Vec<ComboEntry>) -> (l: LabelPlan)
    ensures
        l@ == label_spec(name@, combo@),
{
    let vis = visible_entries(combo);
    if vis.len() == 0 {
        return LabelPlan::Plain;
    }
    let mut keys = String::new();
    let mut args: Vec<FormatArg> = Vec::new();
    let mut i: usize = 0;
    proof {
        assert(vis@.take(0) =~= seq![]);
    }
    while i < vis.len()
        invariant
            i <= vis@.len(),
            keys@ == joined_keys(vis@.take(i as int)),
            args@.map_values(|a: FormatArg| (a.name@, a.unwrap))
                == vis@.take(i as int).map_values(|e: ComboEntry| (e.name@, e.optional)),
        decreases vis@.len() - i,
    {
        proof {
            assert(vis@.take(i + 1).drop_last() =~= vis@.take(i as int));
        }
        if i > 0 {
            keys.append(", ");
        }
        keys.append(vis[i].name.as_str());
        keys.append("={}");
        let ghost prev = args@;
        args.push(FormatArg { name: vis[i].name.clone(), unwrap: vis[i].optional });
        proof {
            if i == 0 {
                assert(keys@ =~= key_part(vis@[0]));
            } else {
                assert(keys@ =~= joined_keys(vis@.take(i as int)) + ", "@ + key_part(vis@[i as int]));
            }
            assert(args@ == prev.push(args@.last()));
            assert(args@.map_values(|a: FormatArg| (a.name@, a.unwrap))
                =~= prev.map_values(|a: FormatArg| (a.name@, a.unwrap)).push((vis@[i as int].name@, vis@[i as int].optional)));
            assert(vis@.take(i + 1) =~= vis@.take(i as int).push(vis@[i as int]));
            assert(vis@.take(i + 1).map_values(|e: ComboEntry| (e.name@, e.optional))
                =~= vis@.take(i as int).map_values(|e: ComboEntry| (e.name@, e.optional)).push((vis@[i as int].name@, vis@[i as int].optional)));
        }
        i = i + 1;
    }
    proof {
        assert(vis@.take(vis@.len() as int) =~= vis@);
    }
    let mut template = name.to_string();
    template.append("(");
    template.append(keys.as_str());
    template.append(")");
    LabelPlan::Format { template, args }
}


/// One generated test function: its name, the name of the function that
/// gives its label, the name of its registration, how its parameters are
/// bound and how its label is made.
pub struct TestInstance {
    pub fn_name: String,
    pub label_fn: String,
    pub static_name: String,
    pub bindings: Vec<Binding>,
    pub label: LabelPlan,
}

pub struct InstanceView {
    pub fn_name: Seq<char>,
    pub label_fn: Seq<char>,
    pub static_name: Seq<char>,
    pub bindings: Seq<Binding>,
    pub label: LabelView,
}

impl View for TestInstance {
    type V = InstanceView;

    open spec fn view(&self) -> InstanceView {
        InstanceView {
            fn_name: self.fn_name@,
            label_fn: self.label_fn@,
            static_name: self.static_name@,
            bindings: self.bindings@,
            label: self.label@,
        }
    }
}

/// What `test_fn` expands a test function into.
pub struct TestExpansion {
    /// Why the test is skipped, if it is.
    pub skip: Option<String>,
    /// The test has parameters: each instance binds them before the body.
    pub parameterized: bool,
    pub instances: Vec<TestInstance>,
}

pub struct ExpansionView {
    pub skip: Option<String>,
    pub parameterized: bool,
    pub instances: Seq<InstanceView>,
}

impl View for TestExpansion {
    type V = ExpansionView;

    open spec fn view(&self) -> ExpansionView {
        ExpansionView {
            skip: self.skip,
            parameterized: self.parameterized,
            instances: self.instances@.map_values(|t: TestInstance| t@),
        }
    }
}

/// The combinations of all attribute sets, set after set.
pub open spec fn all_combos(sets: Seq<Seq<ParamSpec>>) -> Seq<Seq<ComboEntry>>
    decreases sets.len(),
{
    if sets.len() == 0 {
        seq![]
    } else {
        all_combos(sets.drop_last()) + product(sets.last())
    }
}

/// The skip reason of a stack of attributes: that of the last one that gives one.
pub open spec fn combined_skip(sets: Seq<Seq<ParamSpec>>) -> Option<String>
    decreases sets.len(),
{
    if sets.len() == 0 {
        None
    } else {
        match skip_reason(sets.last()) {
            Some(s) => Some(s),
            None => combined_skip(sets.drop_last()),
        }
    }
}

pub open spec fn all_skips_well_formed(sets: Seq<Seq<ParamSpec>>) -> bool {
    forall|i: int| 0 <= i < sets.len() ==> skips_well_formed(#[trigger] sets[i])
}

pub open spec fn kept_sets(sets: Seq<Seq<ParamSpec>>) -> Seq<Seq<ParamSpec>> {
    sets.map_values(|s: Seq<ParamSpec>| kept_specs(s))
}

/// The test has parameters: its combinations are not just the one empty one.
pub open spec fn is_parameterized(combos: Seq<Seq<ComboEntry>>) -> bool {
    !(combos.len() == 1 && combos[0].len() == 0)
}

/// The first refusal met binding `params` in `combos`, combination after
/// combination.
pub open spec fn first_binding_error(combos: Seq<Seq<ComboEntry>>, params: Seq<ParamShape>) -> Option<MacroError>
    decreases combos.len(),
{
    if combos.len() == 0 {
        None
    } else {
        match first_binding_error(combos.drop_last(), params) {
            Some(e) => Some(e),
            None => match bindings_spec(params, combos.last()) {
                Ok(_) => None,
                Err(e) => Some(e),
            },
        }
    }
}

/// Why test `test_fn` refuses to expand a test under the stack of attributes
/// `sets` with parameters `params`, if it does: a `skip` entry without a
/// string, or else, for a parameterized test, the first parameter that
/// cannot be bound.
pub open spec fn refusal(sets: Seq<Seq<ParamSpec>>, params: Seq<ParamShape>) -> Option<MacroError> {
    if !all_skips_well_formed(sets) {
        Some(MacroError::SkipNotString)
    } else {
        let combos = all_combos(kept_sets(sets));
        if !is_parameterized(combos) {
            None
        } else {
            first_binding_error(combos, params)
        }
    }
}

/// The only instance of a test without parameters.
pub open spec fn single_instance(name: Seq<char>, upper: Seq<char>) -> InstanceView {
    InstanceView {
        fn_name: name,
        label_fn: name + "_label"@,
        static_name: "_"@ + upper,
        bindings: seq![],
        label: LabelView::Plain,
    }
}

/// Instance number `i` of a parameterized test, for `combo`.
pub open spec fn numbered_instance(
    name: Seq<char>,
    upper: Seq<char>,
    i: nat,
    combo: Seq<ComboEntry>,
    params: Seq<ParamShape>,
) -> InstanceView {
    InstanceView {
        fn_name: name + "_"@ + decimal(i),
        label_fn: name + "_"@ + decimal(i) + "_label"@,
        static_name: "_"@ + upper + "_"@ + decimal(i),
        bindings: bindings_spec(params, combo)->Ok_0,
        label: label_spec(name, combo),
    }
}

/// The instances for `combos`, numbered from 0.
pub open spec fn numbered_instances(
    name: Seq<char>,
    upper: Seq<char>,
    combos: Seq<Seq<ComboEntry>>,
    params: Seq<ParamShape>,
) -> Seq<InstanceView> {
    Seq::new(combos.len(), |k: int| numbered_instance(name, upper, k as nat, combos[k], params))
}

/// The expansion of test `name`, whose name in upper case is `upper`, under
/// the stack of attributes `sets` (its own first), with parameters `params`.
pub open spec fn expansion_spec(
    name: Seq<char>,
    upper: Seq<char>,
    sets: Seq<Seq<ParamSpec>>,
    params: Seq<ParamShape>,
) -> ExpansionView {
    let combos = all_combos(kept_sets(sets));
    let skip = combined_skip(sets);
    if !is_parameterized(combos) {
        ExpansionView { skip, parameterized: false, instances: seq![single_instance(name, upper)] }
    } else {
        ExpansionView { skip, parameterized: true, instances: numbered_instances(name, upper, combos, params) }
    }
}

pub open spec fn sets_view(v: Seq<Vec<ParamSpec>>) -> Seq<Seq<ParamSpec>> {
    v.map_values(|s: Vec<ParamSpec>| s@)
}

fn suffixed(base: &str, i: usize) -> (r: String)
    ensures
        r@ == base@ + "_"@ + decimal(i as nat),
{
    let mut r = base.to_string();
    r.append("_");
    push_decimal(&mut r, i as u64);
    r
}

fn prefixed(prefix: &str, s: &str) -> (r: String)
    ensures
        r@ == prefix@ + s@,
{
    let mut r = prefix.to_string();
    r.append(s);
    r
}

fn copy_value(v: &ParamValue) -> (r: ParamValue)
    ensures
        r == *v,
{
    ParamValue {
        id: v.id,
        text: match &v.text {
            Some(t) => Some(t.clone()),
            None => None,
        },
    }
}

fn copy_spec(s: &ParamSpec) -> (r: ParamSpec)
    ensures
        r.name == s.name,
        r.values@ == s.values@,
        r.optional == s.optional,
{
    let mut values: Vec<ParamValue> = Vec::new();
    let mut i: usize = 0;
    while i < s.values.len()
        invariant
            i <= s.values@.len(),
            values@ == s.values@.take(i as int),
        decreases s.values@.len() - i,
    {
        values.push(copy_value(&s.values[i]));
        proof {
            assert(values@ =~= s.values@.take(i + 1));
        }
        i = i + 1;
    }
    proof {
        assert(s.values@.take(s.values@.len() as int) =~= s.values@);
    }
    ParamSpec { name: s.name.clone(), values, optional: s.optional }
}

/// Copies of the entries of `specs` that are not `skip`, in order.
fn kept_copy(specs: &Vec<ParamSpec>) -> (r: Vec<ParamSpec>)
    ensures
        r@.len() == kept_specs(specs@).len(),
        forall|k: int| 0 <= k < r@.len() ==> {
            &&& (#[trigger] r@[k]).name == kept_specs(specs@)[k].name
            &&& r@[k].values@ == kept_specs(specs@)[k].values@
            &&& r@[k].optional == kept_specs(specs@)[k].optional
        },
{
    let mut r: Vec<ParamSpec> = Vec::new();
    let mut i: usize = 0;
    proof {
        assert(specs@.take(0) =~= seq![]);
    }
    while i < specs.len()
        invariant
            i <= specs@.len(),
            r@.len() == kept_specs(specs@.take(i as int)).len(),
            forall|k: int| 0 <= k < r@.len() ==> {
                &&& (#[trigger] r@[k]).name == kept_specs(specs@.take(i as int))[k].name
                &&& r@[k].values@ == kept_specs(specs@.take(i as int))[k].values@
                &&& r@[k].optional == kept_specs(specs@.take(i as int))[k].optional
            },
        decreases specs@.len() - i,
    {
        proof {
            assert(specs@.take(i + 1).drop_last() =~= specs@.take(i as int));
            assert(specs@.take(i + 1).last() == specs@[i as int]);
        }
        if !is_skip_exec(&specs[i]) {
            let c = copy_spec(&specs[i]);
            r.push(c);
        }
        i = i + 1;
    }
    proof {
        assert(specs@.take(specs@.len() as int) =~= specs@);
    }
    r
}

/// The product of specs that agree on what it reads is the same.
proof fn lemma_product_congruent(a: Seq<ParamSpec>, b: Seq<ParamSpec>)
    requires
        a.len() == b.len(),
        forall|k: int| 0 <= k < a.len() ==> {
            &&& (#[trigger] a[k]).name == b[k].name
            &&& a[k].values@ == b[k].values@
            &&& a[k].optional == b[k].optional
        },
    ensures
        product(a) == product(b),
    decreases a.len(),
{
    if a.len() > 0 {
        let ia = a.drop_last();
        let ib = b.drop_last();
        assert forall|k: int| 0 <= k < ia.len() implies {
            &&& (#[trigger] ia[k]).name == ib[k].name
            &&& ia[k].values@ == ib[k].values@
            &&& ia[k].optional == ib[k].optional
        } by {
            assert(ia[k] == a[k]);
            assert(ib[k] == b[k]);
        }
        lemma_product_congruent(ia, ib);
        assert(a.last().name == b.last().name);
        assert(choices(a.last()) == choices(b.last()));
        assert(entry_for(a.last(), None) == entry_for(b.last(), None));
        assert(forall|c: Option<u64>| #[trigger] entry_for(a.last(), c) == entry_for(b.last(), c));
        lemma_extend_all_congruent(product(ia), a.last(), b.last());
    }
}

proof fn lemma_extend_all_congruent(combos: Seq<Seq<ComboEntry>>, s: ParamSpec, t: ParamSpec)
    requires
        choices(s) == choices(t),
        forall|c: Option<u64>| #[trigger] entry_for(s, c) == entry_for(t, c),
    ensures
        extend_all(combos, s) == extend_all(combos, t),
    decreases combos.len(),
{
    if combos.len() > 0 {
        lemma_extend_all_congruent(combos.drop_last(), s, t);
        assert(extend_one(combos.last(), s) =~= extend_one(combos.last(), t));
    }
}

/// Copies of the non-`skip` entries of each set of `sets`.
fn kept_sets_copy(sets: &Vec<Vec<ParamSpec>>) -> (r: Vec<Vec<ParamSpec>>)
    ensures
        r@.len() == sets@.len(),
        forall|k: int| 0 <= k < r@.len() ==> product((#[trigger] r@[k])@) == product(kept_specs(sets@[k]@)),
{
    let mut r: Vec<Vec<ParamSpec>> = Vec::new();
    let mut i: usize = 0;
    while i < sets.len()
        invariant
            i <= sets@.len(),
            r@.len() == i,
            forall|k: int| 0 <= k < r@.len() ==> product((#[trigger] r@[k])@) == product(kept_specs(sets@[k]@)),
        decreases sets@.len() - i,
    {
        let c = kept_copy(&sets[i]);
        proof {
            lemma_product_congruent(c@, kept_specs(sets@[i as int]@));
        }
        r.push(c);
        i = i + 1;
    }
    r
}

proof fn lemma_all_combos_congruent(a: Seq<Seq<ParamSpec>>, b: Seq<Seq<ParamSpec>>)
    requires
        a.len() == b.len(),
        forall|k: int| 0 <= k < a.len() ==> product(#[trigger] a[k]) == product(b[k]),
    ensures
        all_combos(a) == all_combos(b),
    decreases a.len(),
{
    if a.len() > 0 {
        let ia = a.drop_last();
        let ib = b.drop_last();
        assert forall|k: int| 0 <= k < ia.len() implies product(#[trigger] ia[k]) == product(ib[k]) by {
            assert(ia[k] == a[k]);
            assert(ib[k] == b[k]);
        }
        lemma_all_combos_congruent(ia, ib);
        assert(product(a.last()) == product(b.last()));
    }
}

proof fn lemma_first_binding_error_persists(combos: Seq<Seq<ComboEntry>>, params: Seq<ParamShape>, n: int)
    requires
        0 <= n <= combos.len(),
        first_binding_error(combos.take(n), params) is Some,
    ensures
        first_binding_error(combos, params) == first_binding_error(combos.take(n), params),
    decreases combos.len() - n,
{
    if n < combos.len() {
        assert(combos.take(n + 1).drop_last() =~= combos.take(n));
        lemma_first_binding_error_persists(combos, params, n + 1);
    } else {
        assert(combos.take(n) =~= combos);
    }
}

proof fn lemma_no_binding_error(combos: Seq<Seq<ComboEntry>>, params: Seq<ParamShape>)
    requires
        first_binding_error(combos, params) is None,
    ensures
        forall|i: int| 0 <= i < combos.len() ==> bindings_spec(params, #[trigger] combos[i]) is Ok,
    decreases combos.len(),
{
    if combos.len() > 0 {
        let init = combos.drop_last();
        lemma_no_binding_error(init, params);
        assert forall|i: int| 0 <= i < combos.len() implies bindings_spec(params, #[trigger] combos[i]) is Ok by {
            if i < init.len() {
                assert(init[i] == combos[i]);
            }
        }
    }
}

/// Why `test_fn` would refuse to expand a test under the stack of
/// attributes `attr_sets` (its own first) with parameters `params`: `None`
/// when it expands.
pub fn check_test_fn(attr_sets: &Vec<Vec<ParamSpec>>, params: &Vec<ParamShape>) -> (r: Option<MacroError>)
    ensures
        r == refusal(sets_view(attr_sets@), params@),
{
    let ghost raw = sets_view(attr_sets@);
    let mut i: usize = 0;
    while i < attr_sets.len()
        invariant
            raw == sets_view(attr_sets@),
            i <= attr_sets@.len(),
            forall|k: int| 0 <= k < i ==> skips_well_formed(#[trigger] raw[k]),
        decreases attr_sets@.len() - i,
    {
        if check_skips(&attr_sets[i]).is_err() {
            proof {
                assert(raw[i as int] == attr_sets@[i as int]@);
            }
            return Some(MacroError::SkipNotString);
        }
        i = i + 1;
    }
    let kept = kept_sets_copy(attr_sets);
    let combos = combos_of(&kept);
    let ghost cv = combo_views(combos@);
    proof {
        assert forall|k: int| 0 <= k < sets_view(kept@).len() implies product(#[trigger] sets_view(kept@)[k]) == product(kept_sets(raw)[k]) by {
            assert(sets_view(kept@)[k] == kept@[k]@);
            assert(kept_sets(raw)[k] == kept_specs(attr_sets@[k]@));
        }
        lemma_all_combos_congruent(sets_view(kept@), kept_sets(raw));
        assert(cv == all_combos(kept_sets(raw)));
    }
    if combos.len() == 1 && combos[0].len() == 0 {
        return None;
    }
    proof {
        assert(cv.len() == combos@.len());
        assert(combos@.len() == 1 ==> cv[0] == combos@[0]@);
        assert(is_parameterized(cv));
    }
    let mut j: usize = 0;
    proof {
        assert(cv.take(0) =~= seq![]);
    }
    while j < combos.len()
        invariant
            cv == combo_views(combos@),
            raw == sets_view(attr_sets@),
            all_skips_well_formed(raw),
            cv == all_combos(kept_sets(raw)),
            is_parameterized(cv),
            j <= combos@.len(),
            first_binding_error(cv.take(j as int), params@) is None,
        decreases combos@.len() - j,
    {
        proof {
            assert(cv.take(j + 1).drop_last() =~= cv.take(j as int));
            assert(cv.take(j + 1).last() == combos@[j as int]@);
        }
        match check_bindings(params, &combos[j]) {
            Some(e) => {
                proof {
                    lemma_first_binding_error_persists(cv, params@, j + 1);
                }
                return Some(e);
            },
            None => {},
        }
        j = j + 1;
    }
    proof {
        assert(cv.take(combos@.len() as int) =~= cv);
    }
    None
}

/// The entries left in each set once the `skip` entries are split off, and
/// the skip reason of the whole stack.
fn strip_skips(attr_sets: Vec<Vec<ParamSpec>>) -> (r: (Vec<Vec<ParamSpec>>, Option<String>))
    requires
        all_skips_well_formed(sets_view(attr_sets@)),
    ensures
        sets_view(r.0@) == kept_sets(sets_view(attr_sets@)),
        r.1 == combined_skip(sets_view(attr_sets@)),
{
    let ghost all = sets_view(attr_sets@);
    let n = attr_sets.len();
    let mut pending = attr_sets;
    let mut kept: Vec<Vec<ParamSpec>> = Vec::new();
    let mut skip: Option<String> = None;
    let mut i: usize = 0;
    proof {
        assert(sets_view(kept@) =~= kept_sets(all.take(0)));
    }
    while i < n
        invariant
            all == sets_view(attr_sets@),
            all_skips_well_formed(all),
            n == all.len(),
            i <= n,
            sets_view(pending@) == all.skip(i as int),
            sets_view(kept@) == kept_sets(all.take(i as int)),
            skip == combined_skip(all.take(i as int)),
        decreases n - i,
    {
        let ghost old_pending = pending@;
        proof {
            assert(all.take(i + 1).drop_last() =~= all.take(i as int));
            assert(pending@.len() == sets_view(pending@).len());
            assert(sets_view(pending@)[0] == all[i as int]);
            assert(skips_well_formed(all[i as int]));
        }
        let set = pending.remove(0);
        proof {
            assert(sets_view(pending@) =~= sets_view(old_pending).drop_first());
            assert(sets_view(pending@) =~= all.skip(i + 1));
        }
        let (rest, reason) = extract_skip(set);
        let ghost before = kept@;
        kept.push(rest);
        if reason.is_some() {
            skip = reason;
        }
        proof {
            assert(sets_view(kept@) =~= sets_view(before).push(rest@));
            assert(kept_sets(all.take(i + 1)) =~= kept_sets(all.take(i as int)).push(kept_specs(all[i as int])));
        }
        i = i + 1;
    }
    proof {
        assert(all.take(n as int) =~= all);
    }
    (kept, skip)
}

proof fn lemma_product_empty(specs: Seq<ParamSpec>)
    requires
        specs.len() == 0,
    ensures
        product(specs) == seq![Seq::<ComboEntry>::empty()],
{
}

/// All combinations of all sets, set after set.
fn combos_of(sets: &Vec<Vec<ParamSpec>>) -> (r: Vec<Vec<ComboEntry>>)
    ensures
        combo_views(r@) == all_combos(sets_view(sets@)),
{
    let ghost all = sets_view(sets@);
    let mut combos: Vec<Vec<ComboEntry>> = Vec::new();
    let mut i: usize = 0;
    proof {
        assert(combo_views(combos@) =~= all_combos(all.take(0)));
    }
    while i < sets.len()
        invariant
            all == sets_view(sets@),
            i <= sets@.len(),
            combo_views(combos@) == all_combos(all.take(i as int)),
        decreases sets@.len() - i,
    {
        proof {
            assert(all.take(i + 1).drop_last() =~= all.take(i as int));
            assert(all.take(i + 1).last() == sets@[i as int]@);
        }
        let ghost before = combos@;
        if sets[i].len() == 0 {
            combos.push(Vec::new());
            proof {
                lemma_product_empty(sets@[i as int]@);
                assert(combo_views(combos@) =~= combo_views(before) + product(sets@[i as int]@));
            }
        } else {
            let mut more = cartesian_product(&sets[i]);
            let ghost added = more@;
            combos.append(&mut more);
            proof {
                assert(combo_views(combos@) =~= combo_views(before) + combo_views(added));
            }
        }
        i = i + 1;
    }
    proof {
        assert(all.take(sets@.len() as int) =~= all);
    }
    combos
}

/// The expansion of test `name`, given its name in upper case `upper`, under
/// the stack of attributes `attr_sets` (its own first), with parameters
/// `params`. The expansion must not be refused (`check_test_fn` tells).
pub fn expand_with_upper(
    name: &str,
    upper: &str,
    attr_sets: Vec<Vec<ParamSpec>>,
    params: &Vec<ParamShape>,
) -> (x: TestExpansion)
    requires
        refusal(sets_view(attr_sets@), params@) is None,
    ensures
        x@ == expansion_spec(name@, upper@, sets_view(attr_sets@), params@),
{
    let ghost raw = sets_view(attr_sets@);
    let (kept, skip) = strip_skips(attr_sets);
    let combos = combos_of(&kept);
    let ghost cv = combo_views(combos@);
    if combos.len() == 1 && combos[0].len() == 0 {
        let mut instances: Vec<TestInstance> = Vec::new();
        instances.push(TestInstance {
            fn_name: name.to_string(),
            label_fn: prefixed(name, "_label"),
            static_name: prefixed("_", upper),
            bindings: Vec::new(),
            label: LabelPlan::Plain,
        });
        let x = TestExpansion { skip, parameterized: false, instances };
        proof {
            assert(x@.instances =~= seq![single_instance(name@, upper@)]);
        }
        return x;
    }
    proof {
        assert(is_parameterized(cv));
        lemma_no_binding_error(cv, params@);
    }
    let mut instances: Vec<TestInstance> = Vec::new();
    let mut i: usize = 0;
    while i < combos.len()
        invariant
            cv == combo_views(combos@),
            forall|k: int| 0 <= k < cv.len() ==> bindings_spec(params@, #[trigger] cv[k]) is Ok,
            i <= combos@.len(),
            instances@.len() == i,
            forall|k: int| 0 <= k < i ==> (#[trigger] instances@[k])@ == numbered_instance(name@, upper@, k as nat, cv[k], params@),
        decreases combos@.len() - i,
    {
        proof {
            assert(cv[i as int] == combos@[i as int]@);
        }
        let bindings = make_bindings(params, &combos[i]);
        let fn_name = suffixed(name, i);
        let label_fn = prefixed(fn_name.as_str(), "_label");
        let base = prefixed("_", upper);
        let static_name = suffixed(base.as_str(), i);
        let label = make_label_code(name, &combos[i]);
        let inst = TestInstance { fn_name, label_fn, static_name, bindings, label };
        proof {
            assert(inst@.static_name =~= "_"@ + upper@ + "_"@ + decimal(i as nat));
            assert(inst@.label_fn =~= name@ + "_"@ + decimal(i as nat) + "_label"@);
            assert(inst@ == numbered_instance(name@, upper@, i as nat, cv[i as int], params@));
        }
        instances.push(inst);
        i = i + 1;
    }
    let x = TestExpansion { skip, parameterized: true, instances };
    proof {
        assert(x@.instances =~= numbered_instances(name@, upper@, cv, params@));
    }
    x
}

/// The expansion `test_fn` makes of test `name` under the stack of
/// attributes `attr_sets` (its own first), with parameters `params`. The
/// expansion must not be refused (`check_test_fn` tells).
pub fn test_fn(name: &str, attr_sets: Vec<Vec<ParamSpec>>, params: &Vec<ParamShape>) -> (x: TestExpansion)
    requires
        refusal(sets_view(attr_sets@), params@) is None,
    ensures
        x@ == expansion_spec(name@, uppercase(name@), sets_view(attr_sets@), params@),
{
    let upper = to_uppercase(name);
    expand_with_upper(name, upper.as_str(), attr_sets, params)
}

/// `c` is a combination for `specs`: one entry per element of `specs`, in
/// order, each named like its element and holding one of its choices.
pub open spec fn fits(c: Seq<ComboEntry>, specs: Seq<ParamSpec>) -> bool {
    &&& c.len() == specs.len()
    &&& forall|k: int| 0 <= k < c.len() ==> {
        &&& #[trigger] c[k] == entry_for(specs[k], c[k].value)
        &&& choices(specs[k]).contains(c[k].value)
    }
}

/// The number of combinations of `specs`: the product of their numbers of choices.
pub open spec fn combo_count(specs: Seq<ParamSpec>) -> nat
    decreases specs.len(),
{
    if specs.len() == 0 {
        1
    } else {
        combo_count(specs.drop_last()) * choices(specs.last()).len()
    }
}

proof fn lemma_extend_all_members(combos: Seq<Seq<ComboEntry>>, s: ParamSpec, i: int)
    requires
        0 <= i < extend_all(combos, s).len(),
    ensures
        exists|j: int, ch: Option<u64>| 0 <= j < combos.len() && choices(s).contains(ch)
            && #[trigger] extend_all(combos, s)[i] == combos[j].push(entry_for(s, ch)),
    decreases combos.len(),
{
    let front = extend_all(combos.drop_last(), s);
    let back = extend_one(combos.last(), s);
    assert(extend_all(combos, s) == front + back);
    if i < front.len() {
        lemma_extend_all_members(combos.drop_last(), s, i);
        let (j, ch) = choose|j: int, ch: Option<u64>| 0 <= j < combos.drop_last().len() && choices(s).contains(ch)
            && #[trigger] extend_all(combos.drop_last(), s)[i] == combos.drop_last()[j].push(entry_for(s, ch));
        assert(combos.drop_last()[j] == combos[j]);
        assert(extend_all(combos, s)[i] == combos[j].push(entry_for(s, ch)));
    } else {
        let k = i - front.len();
        let ch = choices(s)[k];
        assert(choices(s).contains(ch));
        assert(extend_all(combos, s)[i] == back[k]);
        assert(extend_all(combos, s)[i] == combos[combos.len() - 1].push(entry_for(s, ch)));
    }
}

/// Every combination the cartesian product lists fits the entries it was made from.
pub proof fn lemma_product_fits(specs: Seq<ParamSpec>)
    ensures
        forall|i: int| 0 <= i < product(specs).len() ==> fits(#[trigger] product(specs)[i], specs),
    decreases specs.len(),
{
    if specs.len() > 0 {
        let init = specs.drop_last();
        let s = specs.last();
        lemma_product_fits(init);
        assert forall|i: int| 0 <= i < product(specs).len() implies fits(#[trigger] product(specs)[i], specs) by {
            lemma_extend_all_members(product(init), s, i);
            let (j, ch) = choose|j: int, ch: Option<u64>| 0 <= j < product(init).len() && choices(s).contains(ch)
                && #[trigger] extend_all(product(init), s)[i] == product(init)[j].push(entry_for(s, ch));
            let c = product(specs)[i];
            let p = product(init)[j];
            assert(fits(p, init));
            assert(c == p.push(entry_for(s, ch)));
            assert forall|k: int| 0 <= k < c.len() implies {
                &&& #[trigger] c[k] == entry_for(specs[k], c[k].value)
                &&& choices(specs[k]).contains(c[k].value)
            } by {
                if k < p.len() {
                    assert(c[k] == p[k]);
                    assert(init[k] == specs[k]);
                } else {
                    assert(c[k] == entry_for(s, ch));
                }
            }
        }
    }
}

proof fn lemma_extend_all_len(combos: Seq<Seq<ComboEntry>>, s: ParamSpec)
    ensures
        extend_all(combos, s).len() == combos.len() * choices(s).len(),
    decreases combos.len(),
{
    if combos.len() > 0 {
        lemma_extend_all_len(combos.drop_last(), s);
        let a = combos.len();
        let m = choices(s).len();
        assert((a - 1) * m + m == a * m) by (nonlinear_arith);
    }
}

proof fn lemma_extend_all_index(combos: Seq<Seq<ComboEntry>>, s: ParamSpec, j: int, t: int)
    requires
        0 <= j < combos.len(),
        0 <= t < choices(s).len(),
    ensures
        0 <= j * choices(s).len() + t < extend_all(combos, s).len(),
        extend_all(combos, s)[j * choices(s).len() + t] == combos[j].push(entry_for(s, choices(s)[t])),
    decreases combos.len(),
{
    let m = choices(s).len() as int;
    let n = combos.len() as int;
    lemma_extend_all_len(combos, s);
    lemma_extend_all_len(combos.drop_last(), s);
    let front = extend_all(combos.drop_last(), s);
    assert(extend_all(combos, s) == front + extend_one(combos.last(), s));
    assert(0 <= j * m) by (nonlinear_arith)
        requires
            0 <= j,
            0 <= m,
    ;
    assert(j * m + t < n * m) by (nonlinear_arith)
        requires
            0 <= j < n,
            0 <= t < m,
    ;
    if j < n - 1 {
        lemma_extend_all_index(combos.drop_last(), s, j, t);
        assert(j * m + t < (n - 1) * m) by (nonlinear_arith)
            requires
                0 <= j < n - 1,
                0 <= t < m,
        ;
        assert(combos.drop_last()[j] == combos[j]);
    } else {
        assert(j * m + t - (n - 1) * m == t) by (nonlinear_arith)
            requires
                j == n - 1,
        ;
    }
}

/// Every combination that fits the entries is listed by their cartesian product.
pub proof fn lemma_product_complete(specs: Seq<ParamSpec>, c: Seq<ComboEntry>)
    requires
        fits(c, specs),
    ensures
        product(specs).contains(c),
    decreases specs.len(),
{
    if specs.len() == 0 {
        assert(c =~= Seq::<ComboEntry>::empty());
        assert(product(specs)[0] == c);
    } else {
        let init = specs.drop_last();
        let s = specs.last();
        let ci = c.drop_last();
        assert forall|k: int| 0 <= k < ci.len() implies {
            &&& #[trigger] ci[k] == entry_for(init[k], ci[k].value)
            &&& choices(init[k]).contains(ci[k].value)
        } by {
            assert(ci[k] == c[k]);
            assert(init[k] == specs[k]);
        }
        assert(fits(ci, init));
        lemma_product_complete(init, ci);
        let j = choose|j: int| 0 <= j < product(init).len() && product(init)[j] == ci;
        let last = c[c.len() - 1];
        assert(last == entry_for(s, last.value));
        assert(choices(s).contains(last.value));
        let t = choose|t: int| 0 <= t < choices(s).len() && choices(s)[t] == last.value;
        lemma_extend_all_index(product(init), s, j, t);
        assert(c =~= ci.push(entry_for(s, choices(s)[t])));
    }
}

/// The cartesian product has as many combinations as the product of the
/// numbers of choices of its entries.
pub proof fn lemma_product_count(specs: Seq<ParamSpec>)
    ensures
        product(specs).len() == combo_count(specs),
    decreases specs.len(),
{
    if specs.len() > 0 {
        lemma_product_count(specs.drop_last());
        lemma_extend_all_len(product(specs.drop_last()), specs.last());
    }
}

/// The entries left after splitting off the `skip` entries are exactly the
/// other entries: none is a `skip` entry, each comes from `specs`, and an
/// attribute without `skip` entries is left as it is.
pub proof fn lemma_kept_specs(specs: Seq<ParamSpec>)
    ensures
        forall|i: int| 0 <= i < kept_specs(specs).len() ==> !is_skip(#[trigger] kept_specs(specs)[i])
            && specs.contains(kept_specs(specs)[i]),
        (forall|i: int| 0 <= i < specs.len() ==> !is_skip(#[trigger] specs[i])) ==> kept_specs(specs) == specs,
    decreases specs.len(),
{
    if specs.len() > 0 {
        let init = specs.drop_last();
        lemma_kept_specs(init);
        let k = kept_specs(specs);
        assert forall|i: int| 0 <= i < k.len() implies !is_skip(#[trigger] k[i]) && specs.contains(k[i]) by {
            if i < kept_specs(init).len() {
                assert(k[i] == kept_specs(init)[i]);
                let j = choose|j: int| 0 <= j < init.len() && init[j] == k[i];
                assert(specs[j] == k[i]);
            } else {
                assert(k[i] == specs.last());
                assert(specs[specs.len() - 1] == k[i]);
            }
        }
        if forall|i: int| 0 <= i < specs.len() ==> !is_skip(#[trigger] specs[i]) {
            assert forall|i: int| 0 <= i < init.len() implies !is_skip(#[trigger] init[i]) by {
                assert(init[i] == specs[i]);
            }
            assert(!is_skip(specs[specs.len() - 1]));
            assert(specs == init.push(specs.last()));
        }
    }
}


/// The number of combinations of a stack of attribute sets: for each set,
/// the product of its numbers of choices (1 for an empty set), summed.
pub open spec fn total_count(sets: Seq<Seq<ParamSpec>>) -> nat
    decreases sets.len(),
{
    if sets.len() == 0 {
        0
    } else {
        total_count(sets.drop_last()) + combo_count(sets.last())
    }
}

proof fn lemma_all_combos_count(sets: Seq<Seq<ParamSpec>>)
    ensures
        all_combos(sets).len() == total_count(sets),
    decreases sets.len(),
{
    if sets.len() > 0 {
        lemma_all_combos_count(sets.drop_last());
        lemma_product_count(sets.last());
    }
}

/// `test_fn` generates one instance, and so one registration, per
/// combination of each attribute set's values.
pub proof fn lemma_instance_count(name: Seq<char>, upper: Seq<char>, sets: Seq<Seq<ParamSpec>>, params: Seq<ParamShape>)
    ensures
        expansion_spec(name, upper, sets, params).instances.len() == total_count(kept_sets(sets)),
{
    lemma_all_combos_count(kept_sets(sets));
}

proof fn lemma_suffixed_injective(pre: Seq<char>, i: nat, j: nat, post: Seq<char>)
    requires
        pre + decimal(i) + post == pre + decimal(j) + post,
    ensures
        i == j,
{
    let a = pre + decimal(i) + post;
    let b = pre + decimal(j) + post;
    assert(a.len() == b.len());
    assert(decimal(i).len() == decimal(j).len());
    assert(a.subrange(pre.len() as int, (pre.len() + decimal(i).len()) as int) =~= decimal(i));
    assert(b.subrange(pre.len() as int, (pre.len() + decimal(j).len()) as int) =~= decimal(j));
    lemma_decimal_injective(i, j);
}

/// The names `test_fn` gives a parameterized test's items: instance `k` is
/// `name_k`, its label function `name_k_label` and its registration
/// `_UPPER_k`. No two test functions, label functions or registrations
/// share a name; no test function or registration is named like a label
/// function; and, for a test whose name does not start with `_`, no
/// registration is named like a test function.
pub proof fn lemma_instance_names_distinct(
    name: Seq<char>,
    upper: Seq<char>,
    sets: Seq<Seq<ParamSpec>>,
    params: Seq<ParamShape>,
)
    requires
        expansion_spec(name, upper, sets, params).parameterized,
    ensures
        ({
            let x = expansion_spec(name, upper, sets, params);
            &&& forall|k: int| 0 <= k < x.instances.len() ==> {
                &&& (#[trigger] x.instances[k]).fn_name == name + "_"@ + decimal(k as nat)
                &&& x.instances[k].label_fn == name + "_"@ + decimal(k as nat) + "_label"@
                &&& x.instances[k].static_name == "_"@ + upper + "_"@ + decimal(k as nat)
            }
            &&& forall|i: int, j: int| 0 <= i < x.instances.len() && 0 <= j < x.instances.len() && i != j ==> {
                &&& (#[trigger] x.instances[i]).fn_name != (#[trigger] x.instances[j]).fn_name
                &&& x.instances[i].label_fn != x.instances[j].label_fn
                &&& x.instances[i].static_name != x.instances[j].static_name
            }
            &&& forall|i: int, j: int| 0 <= i < x.instances.len() && 0 <= j < x.instances.len() ==> {
                &&& (#[trigger] x.instances[i]).fn_name != (#[trigger] x.instances[j]).label_fn
                &&& x.instances[i].static_name != x.instances[j].label_fn
                &&& (name.len() > 0 && name[0] != '_' ==> x.instances[i].static_name != x.instances[j].fn_name)
            }
        }),
{
    let x = expansion_spec(name, upper, sets, params);
    let n = x.instances.len() as int;
    let pre = name + "_"@;
    let ups = "_"@ + upper + "_"@;
    let none = Seq::<char>::empty();
    reveal_strlit("_label");
    reveal_strlit("_");
    assert forall|i: int, j: int| 0 <= i < n && 0 <= j < n && i != j implies {
        &&& (#[trigger] x.instances[i]).fn_name != (#[trigger] x.instances[j]).fn_name
        &&& x.instances[i].label_fn != x.instances[j].label_fn
        &&& x.instances[i].static_name != x.instances[j].static_name
    } by {
        if x.instances[i].fn_name == x.instances[j].fn_name {
            assert(x.instances[i].fn_name =~= pre + decimal(i as nat) + none);
            assert(x.instances[j].fn_name =~= pre + decimal(j as nat) + none);
            lemma_suffixed_injective(pre, i as nat, j as nat, none);
        }
        if x.instances[i].label_fn == x.instances[j].label_fn {
            lemma_suffixed_injective(pre, i as nat, j as nat, "_label"@);
        }
        if x.instances[i].static_name == x.instances[j].static_name {
            assert(x.instances[i].static_name =~= ups + decimal(i as nat) + none);
            assert(x.instances[j].static_name =~= ups + decimal(j as nat) + none);
            lemma_suffixed_injective(ups, i as nat, j as nat, none);
        }
    }
    assert forall|i: int, j: int| 0 <= i < n && 0 <= j < n implies {
        &&& (#[trigger] x.instances[i]).fn_name != (#[trigger] x.instances[j]).label_fn
        &&& x.instances[i].static_name != x.instances[j].label_fn
        &&& (name.len() > 0 && name[0] != '_' ==> x.instances[i].static_name != x.instances[j].fn_name)
    } by {
        lemma_decimal_round_trip(i as nat);
        lemma_decimal_round_trip(j as nat);
        let di = decimal(i as nat);
        let dj = decimal(j as nat);
        let f = x.instances[i].fn_name;
        let st = x.instances[i].static_name;
        let l = x.instances[j].label_fn;
        assert(f == pre + di);
        assert(l == pre + dj + "_label"@);
        assert(st == ups + di);
        if f == l {
            let p: int = (pre.len() + dj.len()) as int;
            assert(l[p] == '_');
            assert(f[p] == di[dj.len() as int]);
            assert('0' <= di[dj.len() as int] <= '9');
        }
        if st == l {
            assert(l[l.len() - 1] == 'l');
            assert(st[st.len() - 1] == di[di.len() - 1]);
            assert('0' <= di[di.len() - 1] <= '9');
        }
        if name.len() > 0 && name[0] != '_' {
            let g = x.instances[j].fn_name;
            assert(g == pre + dj);
            assert(g[0] == name[0]);
            assert(st[0] == '_');
        }
    }
}


/// Within one attribute, the skip reason is given exactly when there is a
/// `skip` entry, and it is the string of the last such entry.
pub proof fn lemma_skip_reason_last(specs: Seq<ParamSpec>)
    requires
        skips_well_formed(specs),
    ensures
        (skip_reason(specs) is Some) <==> exists|i: int| 0 <= i < specs.len() && is_skip(#[trigger] specs[i]),
        forall|j: int| 0 <= j < specs.len() && is_skip(#[trigger] specs[j])
            && (forall|k: int| j < k < specs.len() ==> !is_skip(#[trigger] specs[k]))
            ==> skip_reason(specs) == skip_text(specs[j]),
    decreases specs.len(),
{
    if specs.len() > 0 {
        let init = specs.drop_last();
        let n = specs.len() - 1;
        assert forall|i: int| 0 <= i < init.len() && is_skip(#[trigger] init[i]) implies skip_text(init[i]) is Some by {
            assert(init[i] == specs[i]);
        }
        lemma_skip_reason_last(init);
        if is_skip(specs[n]) {
            assert(skip_text(specs[n]) is Some);
            assert forall|j: int| 0 <= j < specs.len() && is_skip(#[trigger] specs[j])
                && (forall|k: int| j < k < specs.len() ==> !is_skip(#[trigger] specs[k]))
                implies skip_reason(specs) == skip_text(specs[j]) by {
                if j < n {
                    assert(!is_skip(specs[n]));
                }
            }
        } else {
            if exists|i: int| 0 <= i < specs.len() && is_skip(#[trigger] specs[i]) {
                let i = choose|i: int| 0 <= i < specs.len() && is_skip(#[trigger] specs[i]);
                assert(i < n);
                assert(init[i] == specs[i]);
            }
            if exists|i: int| 0 <= i < init.len() && is_skip(#[trigger] init[i]) {
                let i = choose|i: int| 0 <= i < init.len() && is_skip(#[trigger] init[i]);
                assert(specs[i] == init[i]);
            }
            assert forall|j: int| 0 <= j < specs.len() && is_skip(#[trigger] specs[j])
                && (forall|k: int| j < k < specs.len() ==> !is_skip(#[trigger] specs[k]))
                implies skip_reason(specs) == skip_text(specs[j]) by {
                assert(j < n);
                assert(init[j] == specs[j]);
                assert forall|k: int| j < k < init.len() implies !is_skip(#[trigger] init[k]) by {
                    assert(init[k] == specs[k]);
                }
            }
        }
    }
}

proof fn lemma_combined_skip_at(sets: Seq<Seq<ParamSpec>>, j: int)
    requires
        0 <= j < sets.len(),
        skip_reason(sets[j]) is Some,
        forall|k: int| j < k < sets.len() ==> #[trigger] skip_reason(sets[k]) is None,
    ensures
        combined_skip(sets) == skip_reason(sets[j]),
    decreases sets.len(),
{
    let n = sets.len() - 1;
    if j < n {
        let init = sets.drop_last();
        assert(skip_reason(sets[n]) is None);
        assert(init[j] == sets[j]);
        assert forall|k: int| j < k < init.len() implies #[trigger] skip_reason(init[k]) is None by {
            assert(init[k] == sets[k]);
            assert(skip_reason(sets[k]) is None);
        }
        lemma_combined_skip_at(init, j);
    }
}

proof fn lemma_combined_skip_some(sets: Seq<Seq<ParamSpec>>)
    ensures
        (combined_skip(sets) is Some) <==> exists|i: int| 0 <= i < sets.len() && #[trigger] skip_reason(sets[i]) is Some,
    decreases sets.len(),
{
    if sets.len() > 0 {
        let init = sets.drop_last();
        let n = sets.len() - 1;
        lemma_combined_skip_some(init);
        if skip_reason(sets[n]) is None {
            if exists|i: int| 0 <= i < sets.len() && #[trigger] skip_reason(sets[i]) is Some {
                let i = choose|i: int| 0 <= i < sets.len() && #[trigger] skip_reason(sets[i]) is Some;
                assert(init[i] == sets[i]);
                assert(skip_reason(init[i]) is Some);
            }
            if exists|i: int| 0 <= i < init.len() && #[trigger] skip_reason(init[i]) is Some {
                let i = choose|i: int| 0 <= i < init.len() && #[trigger] skip_reason(init[i]) is Some;
                assert(init[i] == sets[i]);
                assert(skip_reason(sets[i]) is Some);
            }
        }
    }
}

/// Over a stack of attributes, the test is skipped exactly when some
/// attribute gives a skip reason, and the reason is that of the last
/// attribute that gives one: later attributes without one keep it.
pub proof fn lemma_combined_skip_last(sets: Seq<Seq<ParamSpec>>)
    ensures
        (combined_skip(sets) is Some) <==> exists|i: int| 0 <= i < sets.len() && #[trigger] skip_reason(sets[i]) is Some,
        forall|j: int| 0 <= j < sets.len() && #[trigger] skip_reason(sets[j]) is Some
            && (forall|k: int| j < k < sets.len() ==> #[trigger] skip_reason(sets[k]) is None)
            ==> combined_skip(sets) == skip_reason(sets[j]),
{
    lemma_combined_skip_some(sets);
    assert forall|j: int| 0 <= j < sets.len() && #[trigger] skip_reason(sets[j]) is Some
        && (forall|k: int| j < k < sets.len() ==> #[trigger] skip_reason(sets[k]) is None)
        implies combined_skip(sets) == skip_reason(sets[j]) by {
        lemma_combined_skip_at(sets, j);
    }
}

/// The placeholders of the label are separated by `, `: adding an entry to a
/// non-empty list adds `, ` and its placeholder.
pub proof fn lemma_joined_keys_push(v: Seq<ComboEntry>, e: ComboEntry)
    requires
        v.len() > 0,
    ensures
        joined_keys(v.push(e)) == joined_keys(v) + ", "@ + key_part(e),
{
    assert(v.push(e).drop_last() =~= v);
}

/// How labels of two combinations relate: appending a shown entry to a
/// combination that already shows one turns `name(..)` into
/// `name(.., key={})`, with the entry as the last value.
pub proof fn lemma_label_push(name: Seq<char>, combo: Seq<ComboEntry>, e: ComboEntry)
    requires
        visible(combo).len() > 0,
        is_visible(e),
    ensures
        label_spec(name, combo) matches LabelView::Format(t, args) && label_spec(name, combo.push(e)) matches LabelView::Format(t2, args2)
            && t2 == t.drop_last() + ", "@ + key_part(e) + ")"@
            && args2 == args.push((e.name@, e.optional)),
{
    reveal_strlit(")");
    let c2 = combo.push(e);
    assert(c2.drop_last() =~= combo);
    assert(visible(c2) == visible(combo).push(e));
    lemma_joined_keys_push(visible(combo), e);
    let v = visible(combo);
    let t = name + "("@ + joined_keys(v) + ")"@;
    assert(t.drop_last() =~= name + "("@ + joined_keys(v));
    assert(name + "("@ + joined_keys(v.push(e)) + ")"@ =~= t.drop_last() + ", "@ + key_part(e) + ")"@);
    assert(v.push(e).map_values(|x: ComboEntry| (x.name@, x.optional))
        =~= v.map_values(|x: ComboEntry| (x.name@, x.optional)).push((e.name@, e.optional)));
}

/// A test is expanded without parameters only when its one combination is
/// empty. As soon as some combination holds an entry, the expansion is
/// parameterized: one instance per combination, instance `k` named `name_k`,
/// binding the parameters from combination `k` and labelled from it.
pub proof fn lemma_parameterized_when_entries(
    name: Seq<char>,
    upper: Seq<char>,
    sets: Seq<Seq<ParamSpec>>,
    params: Seq<ParamShape>,
)
    ensures
        ({
            let combos = all_combos(kept_sets(sets));
            let x = expansion_spec(name, upper, sets, params);
            &&& (exists|k: int| 0 <= k < combos.len() && (#[trigger] combos[k]).len() > 0) ==> x.parameterized
            &&& combos.len() != 1 ==> x.parameterized
            &&& !x.parameterized ==> combos.len() == 1 && combos[0].len() == 0
                && x.instances.len() == 1 && x.instances[0].fn_name == name
                && x.instances[0].bindings.len() == 0
            &&& x.parameterized ==> {
                &&& x.instances.len() == combos.len()
                &&& forall|k: int| 0 <= k < combos.len() ==> {
                    &&& (#[trigger] x.instances[k]).bindings == bindings_spec(params, combos[k])->Ok_0
                    &&& x.instances[k].label == label_spec(name, combos[k])
                    &&& x.instances[k].fn_name == name + "_"@ + decimal(k as nat)
                }
            }
        }),
{
}

} // verus!
