//! The workspace manifest, `riftpipe.toml`: which algorithm a resource gets.
//!
//! Rules are tried in order, and the first whose glob matches the resource's
//! path decides; where none does, the default does. In a glob `*` stands for any
//! run of characters within a path segment, `**` for any run across segments,
//! with a slash behind it that may be absent, and `?` for one character that is
//! no slash.
use crate::chars::{chars_of, copy_text, same_text};
use crate::sync::strategy::{
    kind_name, kind_named, law_kinds_have_one_name, law_names_find_kinds, Kind,
};
use toml::Value;
use vstd::prelude::*;
use vstd::slice::slice_subrange;

verus! {

// ---------------------------------------------------------------------------
// Globs
// ---------------------------------------------------------------------------

/// What follows `**` in a pattern: a slash behind it belongs to it.
pub open spec fn after_stars(p: Seq<char>) -> Seq<char> {
    if p.len() > 2 && p[2] == '/' {
        p.skip(3)
    } else {
        p.skip(2)
    }
}

/// Whether a text is free of slashes.
pub open spec fn no_slash(t: Seq<char>) -> bool {
    forall|i: int| 0 <= i < t.len() ==> #[trigger] t[i] != '/'
}

/// Whether a glob matches a path.
pub open spec fn globs(p: Seq<char>, t: Seq<char>) -> bool
    decreases p.len(),
{
    if p.len() == 0 {
        t.len() == 0
    } else if p[0] == '*' && p.len() > 1 && p[1] == '*' {
        exists|i: int| 0 <= i <= t.len() && globs(after_stars(p), #[trigger] t.skip(i))
    } else if p[0] == '*' {
        exists|i: int|
            0 <= i <= t.len() && no_slash(t.take(i)) && globs(p.skip(1), #[trigger] t.skip(i))
    } else if p[0] == '?' {
        t.len() > 0 && t[0] != '/' && globs(p.skip(1), t.skip(1))
    } else {
        t.len() > 0 && t[0] == p[0] && globs(p.skip(1), t.skip(1))
    }
}

/// Whether a glob matches a path.
pub fn glob_match(pattern: &str, path: &str) -> (r: bool)
    ensures
        r == globs(pattern@, path@),
{
    let p = chars_of(pattern);
    let t = chars_of(path);
    glob_rec(p.as_slice(), t.as_slice())
}

fn glob_rec(p: &[char], t: &[char]) -> (r: bool)
    ensures
        r == globs(p@, t@),
    decreases p@.len(),
{
    if p.len() == 0 {
        return t.len() == 0;
    }
    if p[0] == '*' && p.len() > 1 && p[1] == '*' {
        let from: usize = if p.len() > 2 && p[2] == '/' {
            3
        } else {
            2
        };
        let rest = slice_subrange(p, from, p.len());
        assert(rest@ =~= after_stars(p@));
        let mut i: usize = 0;
        loop
            invariant
                i <= t@.len(),
                p@.len() > 1,
                p@[0] == '*' && p@[1] == '*',
                rest@ == after_stars(p@),
                rest@.len() < p@.len(),
                forall|j: int| 0 <= j < i ==> !globs(after_stars(p@), #[trigger] t@.skip(j)),
            decreases t@.len() - i,
        {
            let back = slice_subrange(t, i, t.len());
            assert(back@ =~= t@.skip(i as int));
            if glob_rec(rest, back) {
                return true;
            }
            if i >= t.len() {
                return false;
            }
            i += 1;
        }
    }
    if p[0] == '*' {
        let rest = slice_subrange(p, 1, p.len());
        assert(rest@ =~= p@.skip(1));
        let mut i: usize = 0;
        assert(no_slash(t@.take(0)));
        loop
            invariant
                i <= t@.len(),
                p@.len() > 0,
                p@[0] == '*' && !(p@.len() > 1 && p@[1] == '*'),
                rest@ == p@.skip(1),
                no_slash(t@.take(i as int)),
                forall|j: int| 0 <= j < i ==> !globs(p@.skip(1), #[trigger] t@.skip(j)),
            decreases t@.len() - i,
        {
            let back = slice_subrange(t, i, t.len());
            assert(back@ =~= t@.skip(i as int));
            if glob_rec(rest, back) {
                return true;
            }
            if i >= t.len() {
                return false;
            }
            if t[i] == '/' {
                proof {
                    if globs(p@, t@) {
                        let k = choose|k: int|
                            0 <= k <= t@.len() && no_slash(t@.take(k)) && globs(
                                p@.skip(1),
                                #[trigger] t@.skip(k),
                            );
                        assert(k > i);
                        assert(t@.take(k)[i as int] != '/');
                    }
                }
                return false;
            }
            assert(no_slash(t@.take(i + 1))) by {
                assert forall|j: int| 0 <= j < i + 1 implies #[trigger] t@.take(i + 1)[j] != '/' by {
                    if j < i {
                        assert(t@.take(i as int)[j] != '/');
                    }
                }
            }
            i += 1;
        }
    }
    if t.len() == 0 {
        return false;
    }
    let fits = if p[0] == '?' {
        t[0] != '/'
    } else {
        t[0] == p[0]
    };
    if !fits {
        return false;
    }
    let prest = slice_subrange(p, 1, p.len());
    let trest = slice_subrange(t, 1, t.len());
    assert(prest@ =~= p@.skip(1));
    assert(trest@ =~= t@.skip(1));
    glob_rec(prest, trest)
}

// ---------------------------------------------------------------------------
// The manifest
// ---------------------------------------------------------------------------

/// Where a rule keeps its resources.
#[derive(Debug, Clone, Copy, PartialEq, Eq, Structural)]
pub enum BackingChoice {
    Memory,
    File,
}

/// One rule: the resources that it is for, their algorithm, and where they are
/// kept, if the rule says so.
#[derive(Debug, Clone)]
pub struct Rule {
    pub glob: String,
    pub algo: Kind,
    pub backing: Option<BackingChoice>,
}

/// What a rule says.
pub struct RuleView {
    pub glob: Seq<char>,
    pub algo: Kind,
    pub backing: Option<BackingChoice>,
}

impl View for Rule {
    type V = RuleView;

    open spec fn view(&self) -> RuleView {
        RuleView { glob: self.glob@, algo: self.algo, backing: self.backing }
    }
}

/// The rules of a workspace.
#[derive(Debug, Clone)]
pub struct Manifest {
    pub default: Kind,
    pub rules: Vec<Rule>,
}

/// What a manifest says.
pub struct ManifestView {
    pub default: Kind,
    pub rules: Seq<RuleView>,
}

/// What a list of rules says.
pub open spec fn rule_views(v: Seq<Rule>) -> Seq<RuleView> {
    v.map_values(|r: Rule| r@)
}

impl View for Manifest {
    type V = ManifestView;

    open spec fn view(&self) -> ManifestView {
        ManifestView { default: self.default, rules: rule_views(self.rules@) }
    }
}

/// The first rule from `i` on that matches a path; the number of rules if none
/// does.
pub open spec fn first_rule(rules: Seq<RuleView>, i: int, path: Seq<char>) -> int
    decreases rules.len() - i,
{
    if i >= rules.len() {
        rules.len() as int
    } else if globs(rules[i].glob, path) {
        i
    } else {
        first_rule(rules, i + 1, path)
    }
}

impl ManifestView {
    /// The algorithm for a path.
    pub open spec fn kind_of(self, path: Seq<char>) -> Kind {
        let i = first_rule(self.rules, 0, path);
        if 0 <= i < self.rules.len() {
            self.rules[i].algo
        } else {
            self.default
        }
    }

    /// Where the resource at a path is kept, if its rule says so.
    pub open spec fn backing_of(self, path: Seq<char>) -> Option<BackingChoice> {
        let i = first_rule(self.rules, 0, path);
        if 0 <= i < self.rules.len() {
            self.rules[i].backing
        } else {
            None
        }
    }
}

/// Why a manifest cannot be used.
#[derive(Debug, Clone)]
pub enum ManifestError {
    /// It is not TOML; the parser's words.
    Syntax(String),
    /// The default is no name of an algorithm.
    Default,
    /// The rules are not a list.
    Rules,
    /// The rule at this place lacks its glob or its algorithm, or has a value
    /// that cannot be used.
    Rule(usize),
}

/// A TOML value, as far as manifests go.
pub enum TomlView {
    Text(Seq<char>),
    List(Seq<TomlView>),
    Table(Map<Seq<char>, TomlView>),
    Other,
}

#[verifier::external_type_specification]
#[verifier::external_body]
pub struct ExValue(Value);

/// What a TOML value holds.
pub uninterp spec fn toml_view(v: Value) -> TomlView;

/// What a TOML document holds, if the text is one.
pub uninterp spec fn toml_doc(src: Seq<char>) -> Option<TomlView>;

/// `toml::from_str` for a TOML value: what the document holds, or the parser's
/// words on why it is none.
#[verifier::external_body]
fn read_toml(src: &str) -> (r: Result<Value, String>)
    ensures
        match r {
            Ok(v) => toml_doc(src@) == Some(toml_view(v)),
            Err(_) => toml_doc(src@) is None,
        },
{
    toml::from_str::<Value>(src).map_err(|e| e.to_string())
}

/// `toml::Value::as_str`: the text, where the value is one.
pub assume_specification[ Value::as_str ](v: &Value) -> (r: Option<&str>)
    ensures
        match r {
            Some(s) => toml_view(*v) == TomlView::Text(s@),
            None => !(toml_view(*v) is Text),
        },
;

/// `toml::Value::as_array`: the values, where the value is a list.
pub assume_specification[ Value::as_array ](v: &Value) -> (r: Option<&Vec<Value>>)
    ensures
        match r {
            Some(list) => toml_view(*v) == TomlView::List(
                list@.map_values(|x: Value| toml_view(x)),
            ),
            None => !(toml_view(*v) is List),
        },
;

/// `toml::Value::get` with a key: the value of the key, where the value is a
/// table that has it.
#[verifier::external_body]
fn value_get<'a>(v: &'a Value, key: &str) -> (r: Option<&'a Value>)
    ensures
        match r {
            Some(x) => toml_view(*v) is Table && toml_view(*v)->Table_0.contains_key(key@)
                && toml_view(*v)->Table_0[key@] == toml_view(*x),
            None => toml_view(*v) is Table ==> !toml_view(*v)->Table_0.contains_key(key@),
        },
{
    v.get(key)
}

/// The value of a key, where the value is a table that has it.
pub open spec fn entry(v: TomlView, key: Seq<char>) -> Option<TomlView> {
    match v {
        TomlView::Table(m) => if m.contains_key(key) {
            Some(m[key])
        } else {
            None
        },
        _ => None,
    }
}

/// What a manifest says under a key.
#[derive(Debug, Clone)]
pub enum Field {
    Missing,
    Text(String),
    /// Something else than a text.
    Other,
}

/// What a manifest says under a key, as a value.
pub enum FieldView {
    Missing,
    Text(Seq<char>),
    Other,
}

impl View for Field {
    type V = FieldView;

    open spec fn view(&self) -> FieldView {
        match self {
            Field::Missing => FieldView::Missing,
            Field::Text(s) => FieldView::Text(s@),
            Field::Other => FieldView::Other,
        }
    }
}

/// The fields of a rule, as they stand in the manifest.
#[derive(Debug, Clone)]
pub struct RuleFields {
    pub glob: Field,
    pub algo: Field,
    pub backing: Field,
}

/// The fields of a rule, as values.
pub struct RuleFieldsView {
    pub glob: FieldView,
    pub algo: FieldView,
    pub backing: FieldView,
}

impl View for RuleFields {
    type V = RuleFieldsView;

    open spec fn view(&self) -> RuleFieldsView {
        RuleFieldsView { glob: self.glob@, algo: self.algo@, backing: self.backing@ }
    }
}

/// The fields of a manifest, as they stand in it.
#[derive(Debug, Clone)]
pub struct Fields {
    pub default: Field,
    /// None where there is something else than a list of rules.
    pub rules: Option<Vec<RuleFields>>,
}

/// The fields of a manifest, as values.
pub struct FieldsView {
    pub default: FieldView,
    pub rules: Option<Seq<RuleFieldsView>>,
}

/// What a list of rules says.
pub open spec fn rule_fields(v: Seq<RuleFields>) -> Seq<RuleFieldsView> {
    v.map_values(|r: RuleFields| r@)
}

impl View for Fields {
    type V = FieldsView;

    open spec fn view(&self) -> FieldsView {
        FieldsView {
            default: self.default@,
            rules: match self.rules {
                Some(v) => Some(rule_fields(v@)),
                None => None,
            },
        }
    }
}

/// What a TOML value says under a key.
pub open spec fn field_in(v: TomlView, key: Seq<char>) -> FieldView {
    match entry(v, key) {
        None => FieldView::Missing,
        Some(TomlView::Text(s)) => FieldView::Text(s),
        Some(_) => FieldView::Other,
    }
}

/// The fields of the rule that a TOML value holds.
pub open spec fn rule_in(v: TomlView) -> RuleFieldsView {
    RuleFieldsView {
        glob: field_in(v, "glob"@),
        algo: field_in(v, "algo"@),
        backing: field_in(v, "backing"@),
    }
}

/// The fields of the manifest that a TOML document holds. One without rules has
/// an empty list of them.
pub open spec fn fields_in(doc: TomlView) -> FieldsView {
    FieldsView {
        default: field_in(doc, "default"@),
        rules: match entry(doc, "rule"@) {
            None => Some(Seq::empty()),
            Some(TomlView::List(vs)) => Some(vs.map_values(|v: TomlView| rule_in(v))),
            Some(_) => None,
        },
    }
}

fn read_field(v: &Value, key: &str) -> (r: Field)
    ensures
        r@ == field_in(toml_view(*v), key@),
{
    match value_get(v, key) {
        None => Field::Missing,
        Some(x) => match x.as_str() {
            Some(s) => Field::Text(copy_text(s)),
            None => Field::Other,
        },
    }
}

fn read_fields(v: &Value) -> (r: Fields)
    ensures
        r@ == fields_in(toml_view(*v)),
{
    let default = read_field(v, "default");
    let mut rules: Vec<RuleFields> = Vec::new();
    match value_get(v, "rule") {
        None => {
            assert(rule_fields(rules@) =~= Seq::empty());
        },
        Some(list) => match list.as_array() {
            Some(vs) => {
                let ghost views = vs@.map_values(|x: Value| toml_view(x));
                let ghost want = views.map_values(|v: TomlView| rule_in(v));
                let mut i: usize = 0;
                while i < vs.len()
                    invariant
                        i <= vs@.len(),
                        views == vs@.map_values(|x: Value| toml_view(x)),
                        want == views.map_values(|v: TomlView| rule_in(v)),
                        rule_fields(rules@) == want.take(i as int),
                    decreases vs@.len() - i,
                {
                    let ghost before = rules@;
                    let x = &vs[i];
                    assert(views[i as int] == toml_view(*x));
                    rules.push(
                        RuleFields {
                            glob: read_field(x, "glob"),
                            algo: read_field(x, "algo"),
                            backing: read_field(x, "backing"),
                        },
                    );
                    assert(rule_fields(rules@) =~= rule_fields(before).push(want[i as int]));
                    assert(want.take(i + 1) =~= want.take(i as int).push(want[i as int]));
                    i += 1;
                }
                assert(want.take(i as int) =~= want);
            },
            None => {
                return Fields { default, rules: None };
            },
        },
    }
    Fields { default, rules: Some(rules) }
}

/// The choice that a field names.
pub open spec fn choice_of(f: FieldView) -> Option<BackingChoice> {
    match f {
        FieldView::Text(s) => if s == "memory"@ {
            Some(BackingChoice::Memory)
        } else if s == "file"@ {
            Some(BackingChoice::File)
        } else {
            None
        },
        _ => None,
    }
}

/// The algorithm that a field names.
pub open spec fn algo_of(f: FieldView) -> Option<Kind> {
    match f {
        FieldView::Text(s) => kind_named(s),
        _ => None,
    }
}

/// The rule that fields make up, if they make one up.
pub open spec fn rule_of(f: RuleFieldsView) -> Option<RuleView> {
    match (f.glob, algo_of(f.algo)) {
        (FieldView::Text(glob), Some(algo)) => match f.backing {
            FieldView::Missing => Some(RuleView { glob, algo, backing: None }),
            b => match choice_of(b) {
                Some(c) => Some(RuleView { glob, algo, backing: Some(c) }),
                None => None,
            },
        },
        _ => None,
    }
}

/// The first from `i` on that makes up no rule; the number of them if all do.
pub open spec fn first_bad(fs: Seq<RuleFieldsView>, i: int) -> int
    decreases fs.len() - i,
{
    if i >= fs.len() {
        fs.len() as int
    } else if rule_of(fs[i]) is None {
        i
    } else {
        first_bad(fs, i + 1)
    }
}

/// The default that a field names; block diff where there is none.
pub open spec fn default_of(f: FieldView) -> Option<Kind> {
    match f {
        FieldView::Missing => Some(Kind::RsyncFile),
        _ => algo_of(f),
    }
}

/// Whether a manifest, or the reason that there is none, is what fields give.
pub open spec fn gives(f: FieldsView, r: Result<Manifest, ManifestError>) -> bool {
    match default_of(f.default) {
        None => r matches Err(ManifestError::Default),
        Some(d) => match f.rules {
            None => r matches Err(ManifestError::Rules),
            Some(fs) => if first_bad(fs, 0) < fs.len() {
                r matches Err(ManifestError::Rule(i)) && i == first_bad(fs, 0)
            } else {
                r matches Ok(m) && m@.default == d && m@.rules.len() == fs.len() && forall|i: int|
                    0 <= i < fs.len() ==> Some(#[trigger] m@.rules[i]) == rule_of(fs[i])
            },
        },
    }
}

fn read_choice(f: &Field) -> (r: Option<BackingChoice>)
    ensures
        r == choice_of(f@),
{
    match f {
        Field::Text(s) => if same_text(s.as_str(), "memory") {
            Some(BackingChoice::Memory)
        } else if same_text(s.as_str(), "file") {
            Some(BackingChoice::File)
        } else {
            None
        },
        _ => None,
    }
}

fn read_algo(f: &Field) -> (r: Option<Kind>)
    ensures
        r == algo_of(f@),
{
    match f {
        Field::Text(s) => Kind::from_name(s.as_str()),
        _ => None,
    }
}

fn read_rule(f: &RuleFields) -> (r: Option<Rule>)
    ensures
        match r {
            Some(x) => rule_of(f@) == Some(x@),
            None => rule_of(f@) is None,
        },
{
    let glob = match &f.glob {
        Field::Text(s) => copy_text(s.as_str()),
        _ => {
            return None;
        },
    };
    let algo = match read_algo(&f.algo) {
        Some(k) => k,
        None => {
            return None;
        },
    };
    match &f.backing {
        Field::Missing => Some(Rule { glob, algo, backing: None }),
        _ => match read_choice(&f.backing) {
            Some(c) => Some(Rule { glob, algo, backing: Some(c) }),
            None => None,
        },
    }
}

impl Default for Manifest {
    /// Block diff for everything: it works on any bytes.
    fn default() -> (r: Self)
        ensures
            r@ == (ManifestView { default: Kind::RsyncFile, rules: Seq::empty() }),
    {
        let r = Manifest { default: Kind::RsyncFile, rules: Vec::new() };
        assert(r@.rules =~= Seq::empty());
        r
    }
}

impl Manifest {
    /// The manifest that fields give, or why they give none.
    pub fn from_fields(f: &Fields) -> (r: Result<Self, ManifestError>)
        ensures
            gives(f@, r),
    {
        let default = match &f.default {
            Field::Missing => Kind::RsyncFile,
            _ => match read_algo(&f.default) {
                Some(k) => k,
                None => {
                    return Err(ManifestError::Default);
                },
            },
        };
        let list = match &f.rules {
            Some(v) => v,
            None => {
                return Err(ManifestError::Rules);
            },
        };
        let ghost fs = rule_fields(list@);
        let mut rules: Vec<Rule> = Vec::new();
        let mut i: usize = 0;
        while i < list.len()
            invariant
                i <= list@.len(),
                fs == rule_fields(list@),
                f@.rules == Some(fs),
                default_of(f@.default) == Some(default),
                first_bad(fs, 0) == first_bad(fs, i as int),
                rules@.len() == i,
                forall|j: int| 0 <= j < i ==> rule_of(fs[j]) == Some((#[trigger] rules@[j])@),
            decreases list@.len() - i,
        {
            assert(fs[i as int] == list@[i as int]@);
            match read_rule(&list[i]) {
                Some(rule) => rules.push(rule),
                None => {
                    return Err(ManifestError::Rule(i));
                },
            }
            i += 1;
        }
        Ok(Manifest { default, rules })
    }

    /// The manifest that a TOML text holds.
    pub fn parse(src: &str) -> (r: Result<Self, ManifestError>)
        ensures
            match toml_doc(src@) {
                Some(doc) => gives(fields_in(doc), r),
                None => r matches Err(ManifestError::Syntax(_)),
            },
    {
        match read_toml(src) {
            Ok(v) => Self::from_fields(&read_fields(&v)),
            Err(e) => Err(ManifestError::Syntax(e)),
        }
    }

    /// The manifest of a workspace: that of its file, if it has one. A file that
    /// cannot be used is an error.
    pub fn load_or_default(src: Option<&str>) -> (r: Result<Self, ManifestError>)
        ensures
            match src {
                None => r matches Ok(m) && m@ == (ManifestView {
                    default: Kind::RsyncFile,
                    rules: Seq::empty(),
                }),
                Some(s) => match toml_doc(s@) {
                    Some(doc) => gives(fields_in(doc), r),
                    None => r matches Err(ManifestError::Syntax(_)),
                },
            },
    {
        match src {
            Some(s) => Self::parse(s),
            None => Ok(Self::default()),
        }
    }

    /// The first rule that matches a path.
    fn find_rule(&self, path: &str) -> (r: Option<usize>)
        ensures
            match r {
                Some(i) => i == first_rule(self@.rules, 0, path@) && i < self.rules@.len(),
                None => first_rule(self@.rules, 0, path@) == self.rules@.len(),
            },
    {
        let mut i: usize = 0;
        while i < self.rules.len()
            invariant
                i <= self.rules@.len(),
                first_rule(self@.rules, 0, path@) == first_rule(self@.rules, i as int, path@),
            decreases self.rules@.len() - i,
        {
            assert(self@.rules[i as int] == self.rules@[i as int]@);
            if glob_match(self.rules[i].glob.as_str(), path) {
                return Some(i);
            }
            i += 1;
        }
        None
    }

    /// The algorithm for a path: that of the first rule that matches, or the
    /// default.
    pub fn kind_for(&self, rel_path: &str) -> (r: Kind)
        ensures
            r == self@.kind_of(rel_path@),
    {
        match self.find_rule(rel_path) {
            Some(i) => self.rules[i].algo,
            None => self.default,
        }
    }

    /// Where the resource at a path is kept, if its rule says so.
    pub fn backing_for(&self, rel_path: &str) -> (r: Option<BackingChoice>)
        ensures
            r == self@.backing_of(rel_path@),
    {
        match self.find_rule(rel_path) {
            Some(i) => self.rules[i].backing,
            None => None,
        }
    }
}

// ---------------------------------------------------------------------------
// Laws
// ---------------------------------------------------------------------------

/// A pattern without wildcards matches itself and nothing else.
pub proof fn law_plain_patterns_match_themselves(p: Seq<char>, t: Seq<char>)
    requires
        forall|i: int| 0 <= i < p.len() ==> (#[trigger] p[i]) != '*' && p[i] != '?',
    ensures
        globs(p, t) <==> p == t,
    decreases p.len(),
{
    if p.len() == 0 {
        if t.len() == 0 {
            assert(p =~= t);
        }
    } else {
        assert(p[0] != '*' && p[0] != '?');
        if t.len() > 0 {
            assert forall|i: int| 0 <= i < p.skip(1).len() implies (#[trigger] p.skip(1)[i]) != '*'
                && p.skip(1)[i] != '?' by {
                assert(p.skip(1)[i] == p[i + 1]);
            }
            law_plain_patterns_match_themselves(p.skip(1), t.skip(1));
            if t[0] == p[0] && p.skip(1) == t.skip(1) {
                assert(p =~= seq![p[0]] + p.skip(1));
                assert(t =~= seq![t[0]] + t.skip(1));
            }
        }
    }
}

/// `**` matches every path.
pub proof fn law_two_stars_match_everything(t: Seq<char>)
    ensures
        globs(seq!['*', '*'], t),
{
    let p = seq!['*', '*'];
    assert(after_stars(p) =~= Seq::<char>::empty());
    assert(t.skip(t.len() as int) =~= Seq::<char>::empty());
    assert(globs(after_stars(p), t.skip(t.len() as int)));
}

/// `*` alone matches exactly the paths of one segment.
pub proof fn law_one_star_matches_one_segment(t: Seq<char>)
    ensures
        globs(seq!['*'], t) <==> no_slash(t),
{
    let p = seq!['*'];
    assert(p.skip(1) =~= Seq::<char>::empty());
    assert(t.skip(t.len() as int) =~= Seq::<char>::empty());
    assert(t.take(t.len() as int) =~= t);
    if globs(p, t) {
        let i = choose|i: int|
            0 <= i <= t.len() && no_slash(t.take(i)) && globs(p.skip(1), #[trigger] t.skip(i));
        assert(i == t.len());
    } else if no_slash(t) {
        assert(globs(p.skip(1), t.skip(t.len() as int)));
    }
}

/// The first rule that matches decides, whatever the later ones say.
pub proof fn law_first_match_decides(m: ManifestView, i: int, path: Seq<char>)
    requires
        0 <= i < m.rules.len(),
        globs(m.rules[i].glob, path),
        forall|j: int| 0 <= j < i ==> !globs((#[trigger] m.rules[j]).glob, path),
    ensures
        m.kind_of(path) == m.rules[i].algo,
        m.backing_of(path) == m.rules[i].backing,
{
    lemma_first_rule(m.rules, 0, i, path);
}

proof fn lemma_first_rule(rules: Seq<RuleView>, k: int, i: int, path: Seq<char>)
    requires
        0 <= k <= i < rules.len(),
        globs(rules[i].glob, path),
        forall|j: int| 0 <= j < i ==> !globs((#[trigger] rules[j]).glob, path),
    ensures
        first_rule(rules, k, path) == i,
    decreases i - k,
{
    if k < i {
        assert(!globs(rules[k].glob, path));
        lemma_first_rule(rules, k + 1, i, path);
    }
}

/// What each part of a pattern stands for: a plain character for itself, `?` for one
/// character but a slash, `*` for any run without a slash, `**` for any run at all, with
/// a slash behind it that may be absent. The empty pattern matches the empty path alone.
pub proof fn law_parts_of_patterns(c: char, p: Seq<char>, t: Seq<char>)
    ensures
        globs(Seq::empty(), t) <==> t.len() == 0,
        c != '*' && c != '?' ==> (globs(seq![c] + p, t) <==> t.len() > 0 && t[0] == c && globs(
            p,
            t.skip(1),
        )),
        globs(seq!['?'] + p, t) <==> t.len() > 0 && t[0] != '/' && globs(p, t.skip(1)),
        p.len() == 0 || p[0] != '*' ==> (globs(seq!['*'] + p, t) <==> exists|x: Seq<char>, y: Seq<
            char,
        >| #[trigger]
            (x + y) == t && !x.contains('/') && globs(p, y)),
        p.len() == 0 || p[0] != '/' ==> (globs(seq!['*', '*'] + p, t) <==> exists|
            x: Seq<char>,
            y: Seq<char>,
        | #[trigger]
            (x + y) == t && globs(p, y)),
        globs(seq!['*', '*', '/'] + p, t) <==> exists|x: Seq<char>, y: Seq<char>| #[trigger]
            (x + y) == t && globs(p, y),
{
    assert((seq![c] + p).skip(1) =~= p);
    assert((seq!['?'] + p).skip(1) =~= p);
    if p.len() == 0 || p[0] != '*' {
        let q = seq!['*'] + p;
        assert(q.skip(1) =~= p);
        if globs(q, t) {
            let i = choose|i: int|
                0 <= i <= t.len() && no_slash(t.take(i)) && globs(q.skip(1), #[trigger] t.skip(i));
            assert(t.take(i) + t.skip(i) =~= t);
            assert(!t.take(i).contains('/'));
        }
        if exists|x: Seq<char>, y: Seq<char>| #[trigger]
            (x + y) == t && !x.contains('/') && globs(p, y) {
            let (x, y) = choose|x: Seq<char>, y: Seq<char>| #[trigger]
                (x + y) == t && !x.contains('/') && globs(p, y);
            assert(t.take(x.len() as int) =~= x);
            assert(t.skip(x.len() as int) =~= y);
            assert(no_slash(x)) by {
                assert forall|i: int| 0 <= i < x.len() implies #[trigger] x[i] != '/' by {
                    assert(x.contains(x[i]));
                }
            }
        }
    }
    if p.len() == 0 || p[0] != '/' {
        let q = seq!['*', '*'] + p;
        assert(after_stars(q) =~= p) by {
            if p.len() > 0 {
                assert(q[2] == p[0]);
            }
        }
        lemma_any_run(q, p, t);
    }
    let q = seq!['*', '*', '/'] + p;
    assert(after_stars(q) =~= p);
    lemma_any_run(q, p, t);
}

proof fn lemma_any_run(q: Seq<char>, p: Seq<char>, t: Seq<char>)
    requires
        q.len() > 1,
        q[0] == '*',
        q[1] == '*',
        after_stars(q) == p,
    ensures
        globs(q, t) <==> exists|x: Seq<char>, y: Seq<char>| #[trigger] (x + y) == t && globs(p, y),
{
    if globs(q, t) {
        let i = choose|i: int| 0 <= i <= t.len() && globs(after_stars(q), #[trigger] t.skip(i));
        assert(t.take(i) + t.skip(i) =~= t);
    }
    if exists|x: Seq<char>, y: Seq<char>| #[trigger] (x + y) == t && globs(p, y) {
        let (x, y) = choose|x: Seq<char>, y: Seq<char>| #[trigger] (x + y) == t && globs(p, y);
        assert(t.skip(x.len() as int) =~= y);
    }
}

/// What two patterns match one after the other, the patterns put together match. A star
/// at the end of the first is left out: with what follows it may be another wildcard.
pub proof fn law_patterns_add_up(a: Seq<char>, u: Seq<char>, b: Seq<char>, v: Seq<char>)
    requires
        a.len() == 0 || a.last() != '*',
        globs(a, u),
        globs(b, v),
    ensures
        globs(a + b, u + v),
    decreases a.len(),
{
    let p = a + b;
    let t = u + v;
    if a.len() == 0 {
        assert(p =~= b);
        assert(t =~= v);
    } else if a[0] == '*' && a.len() > 1 && a[1] == '*' {
        assert(a.len() > 2);
        let i = choose|i: int| 0 <= i <= u.len() && globs(after_stars(a), #[trigger] u.skip(i));
        let rest = after_stars(a);
        assert(rest.len() > 0 ==> rest.last() == a.last());
        law_patterns_add_up(rest, u.skip(i), b, v);
        assert(p[2] == a[2]);
        assert(after_stars(p) =~= rest + b);
        assert(t.skip(i) =~= u.skip(i) + v);
        assert(globs(after_stars(p), t.skip(i)));
    } else if a[0] == '*' {
        assert(a.len() > 1);
        let i = choose|i: int|
            0 <= i <= u.len() && no_slash(u.take(i)) && globs(a.skip(1), #[trigger] u.skip(i));
        assert(a.skip(1).last() == a.last());
        law_patterns_add_up(a.skip(1), u.skip(i), b, v);
        assert(p[1] == a[1]);
        assert(p.skip(1) =~= a.skip(1) + b);
        assert(t.skip(i) =~= u.skip(i) + v);
        assert(t.take(i) =~= u.take(i));
        assert(globs(p.skip(1), t.skip(i)));
    } else {
        assert(a.skip(1).len() > 0 ==> a.skip(1).last() == a.last());
        law_patterns_add_up(a.skip(1), u.skip(1), b, v);
        assert(p.skip(1) =~= a.skip(1) + b);
        assert(t.skip(1) =~= u.skip(1) + v);
        assert(p[0] == a[0] && t[0] == u[0]);
    }
}

/// A star between two patterns stands for every run without a slash.
pub proof fn law_a_star_stands_for_any_run(
    a: Seq<char>,
    u: Seq<char>,
    x: Seq<char>,
    b: Seq<char>,
    v: Seq<char>,
)
    requires
        a.len() == 0 || a.last() != '*',
        b.len() == 0 || b[0] != '*',
        globs(a, u),
        globs(b, v),
        !x.contains('/'),
    ensures
        globs(a + (seq!['*'] + b), u + (x + v)),
{
    law_parts_of_patterns('*', b, x + v);
    assert(globs(seq!['*'] + b, x + v));
    law_patterns_add_up(a, u, seq!['*'] + b, x + v);
}

/// Where no rule matches, the default decides, and where a resource is kept is left
/// open.
pub proof fn law_the_default_decides_the_rest(m: ManifestView, path: Seq<char>)
    requires
        forall|j: int| 0 <= j < m.rules.len() ==> !globs((#[trigger] m.rules[j]).glob, path),
    ensures
        m.kind_of(path) == m.default,
        m.backing_of(path) is None,
{
    lemma_no_rule(m.rules, 0, path);
}

proof fn lemma_no_rule(rules: Seq<RuleView>, k: int, path: Seq<char>)
    requires
        0 <= k <= rules.len(),
        forall|j: int| 0 <= j < rules.len() ==> !globs((#[trigger] rules[j]).glob, path),
    ensures
        first_rule(rules, k, path) == rules.len(),
    decreases rules.len() - k,
{
    if k < rules.len() {
        assert(!globs(rules[k].glob, path));
        lemma_no_rule(rules, k + 1, path);
    }
}

/// Fields under which a manifest says what it can say: a default that is absent or names
/// an algorithm, and rules that each have a glob, the name of an algorithm and, if
/// anything, `memory` or `file` for their place.
pub open spec fn well_spelled(f: FieldsView) -> bool {
    &&& f.default is Missing || exists|k: Kind| f.default == FieldView::Text(#[trigger] kind_name(k))
    &&& f.rules matches Some(rs) && forall|i: int|
        0 <= i < rs.len() ==> {
            &&& (#[trigger] rs[i]).glob is Text
            &&& exists|k: Kind| rs[i].algo == FieldView::Text(#[trigger] kind_name(k))
            &&& rs[i].backing is Missing || rs[i].backing == FieldView::Text("memory"@)
                || rs[i].backing == FieldView::Text("file"@)
        }
}

/// A manifest is read exactly where it is well spelled, and then holds what it says: the
/// default, and the rules in their order with their globs, algorithms and places.
pub proof fn law_manifests_hold_what_they_say(f: FieldsView, r: Result<Manifest, ManifestError>)
    requires
        gives(f, r),
    ensures
        r is Ok <==> well_spelled(f),
        r matches Ok(m) ==> {
            &&& f.default is Missing ==> m@.default == Kind::RsyncFile
            &&& f.default matches FieldView::Text(s) ==> s == kind_name(m@.default)
            &&& f.rules matches Some(rs) && m@.rules.len() == rs.len() && forall|i: int|
                0 <= i < rs.len() ==> {
                    &&& rs[i].glob == FieldView::Text((#[trigger] m@.rules[i]).glob)
                    &&& rs[i].algo == FieldView::Text(kind_name(m@.rules[i].algo))
                    &&& rs[i].backing == (match m@.rules[i].backing {
                        None => FieldView::Missing,
                        Some(BackingChoice::Memory) => FieldView::Text("memory"@),
                        Some(BackingChoice::File) => FieldView::Text("file"@),
                    })
                }
        },
{
    lemma_spelled_algo(f.default);
    if let Some(fs) = f.rules {
        lemma_first_bad(fs, 0);
        assert forall|i: int| 0 <= i < fs.len() implies (rule_of(#[trigger] fs[i]) is Some <==> {
            &&& fs[i].glob is Text
            &&& exists|k: Kind| fs[i].algo == FieldView::Text(#[trigger] kind_name(k))
            &&& fs[i].backing is Missing || fs[i].backing == FieldView::Text("memory"@)
                || fs[i].backing == FieldView::Text("file"@)
        }) by {
            lemma_spelled_algo(fs[i].algo);
            reveal_strlit("memory");
            reveal_strlit("file");
        }
        if let Ok(m) = r {
            assert forall|i: int| 0 <= i < fs.len() implies {
                &&& fs[i].glob == FieldView::Text((#[trigger] m@.rules[i]).glob)
                &&& fs[i].algo == FieldView::Text(kind_name(m@.rules[i].algo))
                &&& fs[i].backing == (match m@.rules[i].backing {
                    None => FieldView::Missing,
                    Some(BackingChoice::Memory) => FieldView::Text("memory"@),
                    Some(BackingChoice::File) => FieldView::Text("file"@),
                })
            } by {
                assert(Some(m@.rules[i]) == rule_of(fs[i]));
                lemma_spelled_algo(fs[i].algo);
            }
        }
    }
}

proof fn lemma_spelled_algo(f: FieldView)
    ensures
        algo_of(f) is Some <==> exists|k: Kind| f == FieldView::Text(#[trigger] kind_name(k)),
        algo_of(f) matches Some(k) ==> f == FieldView::Text(kind_name(k)),
{
    if let FieldView::Text(s) = f {
        law_kinds_have_one_name(s);
        if exists|k: Kind| f == FieldView::Text(#[trigger] kind_name(k)) {
            let k = choose|k: Kind| f == FieldView::Text(#[trigger] kind_name(k));
            law_names_find_kinds(k);
        }
    }
}

proof fn lemma_first_bad(fs: Seq<RuleFieldsView>, k: int)
    requires
        0 <= k <= fs.len(),
    ensures
        k <= first_bad(fs, k) <= fs.len(),
        forall|i: int| k <= i < first_bad(fs, k) ==> rule_of(#[trigger] fs[i]) is Some,
        first_bad(fs, k) < fs.len() ==> rule_of(fs[first_bad(fs, k)]) is None,
    decreases fs.len() - k,
{
    if k < fs.len() && rule_of(fs[k]) is Some {
        lemma_first_bad(fs, k + 1);
    }
}

/// Of several rules that cannot be used the first is reported.
pub proof fn law_the_first_bad_rule_is_reported(
    f: FieldsView,
    r: Result<Manifest, ManifestError>,
    i: int,
)
    requires
        gives(f, r),
        r matches Err(ManifestError::Rule(n)) && n == i,
    ensures
        f.rules matches Some(rs) && 0 <= i < rs.len() && rule_of(rs[i]) is None && forall|j: int|
            0 <= j < i ==> rule_of(#[trigger] rs[j]) is Some,
{
    lemma_first_bad(f.rules->Some_0, 0);
}

/// The fields of a manifest stand under their keys: the default, and the list of rules with
/// a glob, an algorithm and a place each.
pub proof fn law_fields_stand_under_their_keys(
    m: Map<Seq<char>, TomlView>,
    rules: Seq<TomlView>,
    i: int,
    r: Map<Seq<char>, TomlView>,
)
    requires
        m.contains_key("rule"@) && m["rule"@] == TomlView::List(rules),
        0 <= i < rules.len(),
        rules[i] == TomlView::Table(r),
    ensures
        ({
            let f = fields_in(TomlView::Table(m));
            let said = |t: Map<Seq<char>, TomlView>, k: Seq<char>|
                if !t.contains_key(k) {
                    FieldView::Missing
                } else if t[k] is Text {
                    FieldView::Text(t[k]->Text_0)
                } else {
                    FieldView::Other
                };
            &&& f.default == said(m, "default"@)
            &&& f.rules matches Some(rs) && rs.len() == rules.len() && rs[i].glob == said(
                r,
                "glob"@,
            ) && rs[i].algo == said(r, "algo"@) && rs[i].backing == said(r, "backing"@)
        }),
{
}

/// A manifest without rules has none, and one whose rules are no list cannot be read.
pub proof fn law_rules_are_a_list(m: Map<Seq<char>, TomlView>)
    ensures
        !m.contains_key("rule"@) ==> fields_in(TomlView::Table(m)).rules == Some(
            Seq::<RuleFieldsView>::empty(),
        ),
        m.contains_key("rule"@) && !(m["rule"@] is List) ==> fields_in(TomlView::Table(m)).rules
            is None,
{
}

} // verus!
