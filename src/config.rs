use vstd::prelude::*;
use crate::format::has_name;
use crate::qualified::{paths_sorted, QualifiedMap};
use crate::registry::{defines, NameMap};

verus! {

/// A binary encoding for which specialized methods can be generated.
#[derive(Clone, Copy, Debug, PartialEq, Eq, Structural, PartialOrd, Ord, Hash)]
pub enum Encoding {
    Bincode,
    Bcs,
}

/// Type names provided by external modules, keyed by module name.
pub type ExternalDefinitions = NameMap<Vec<String>>;

/// Documentation attached to particular qualified names.
pub type DocComments = QualifiedMap<String>;

/// Custom code attached to particular qualified names, inserted verbatim.
pub type CustomCode = QualifiedMap<String>;

/// Code generation options meant to be supported by all languages.
#[derive(Clone, Debug)]
pub struct CodeGeneratorConfig {
    pub module_name: String,
    pub serialization: bool,
    pub encodings: Vec<Encoding>,
    pub external_definitions: ExternalDefinitions,
    pub comments: DocComments,
    pub custom_code: CustomCode,
    pub c_style_enums: bool,
    pub package_manifest: bool,
    pub namespaces: NameMap<String>,
}

/// The set of encodings of `s`, once each, in the order `Bincode`, `Bcs`.
pub open spec fn encodings_of(s: Seq<Encoding>) -> Seq<Encoding> {
    (if s.contains(Encoding::Bincode) { seq![Encoding::Bincode] } else { Seq::empty() })
        + (if s.contains(Encoding::Bcs) { seq![Encoding::Bcs] } else { Seq::empty() })
}

pub open spec fn encoding_name(e: Encoding) -> Seq<char> {
    match e {
        Encoding::Bincode => "bincode"@,
        Encoding::Bcs => "bcs"@,
    }
}

/// `c` is the value bound to `k` by the last pair of `s` whose key is `k`.
pub open spec fn last_binding(s: Seq<(String, String)>, n: int, k: Seq<char>, c: String) -> bool {
    exists|i: int| 0 <= i < n && (#[trigger] s[i]).0@ == k && s[i].1 == c && forall|j: int| i < j < n ==> (#[trigger] s[j]).0@ != k
}

/// Whether `c` has the Unicode `White_Space` property.
pub open spec fn is_white(c: char) -> bool {
    ('\u{9}' <= c && c <= '\u{d}') || c == ' ' || c == '\u{85}' || c == '\u{a0}' || c == '\u{1680}'
        || ('\u{2000}' <= c && c <= '\u{200a}') || c == '\u{2028}' || c == '\u{2029}' || c == '\u{202f}'
        || c == '\u{205f}' || c == '\u{3000}'
}

pub open spec fn trim_start_spec(s: Seq<char>) -> Seq<char>
    decreases s.len(),
{
    if s.len() > 0 && is_white(s[0]) {
        trim_start_spec(s.drop_first())
    } else {
        s
    }
}

pub open spec fn trim_end_spec(s: Seq<char>) -> Seq<char>
    decreases s.len(),
{
    if s.len() > 0 && is_white(s.last()) {
        trim_end_spec(s.drop_last())
    } else {
        s
    }
}

/// `s` without its leading and trailing white space.
pub open spec fn trimmed(s: Seq<char>) -> Seq<char> {
    trim_end_spec(trim_start_spec(s))
}

/// A documentation string trimmed and ended by exactly one line break.
pub open spec fn normalized_comment(s: Seq<char>) -> Seq<char> {
    trimmed(s).push('\n')
}

/// Relies on `str::trim`: removes the leading and trailing characters that
/// have the Unicode `White_Space` property.
#[verifier::external_body]
fn trim(s: &str) -> (r: &str)
    ensures
        r@ == trimmed(s@),
{
    s.trim()
}

/// Trims `s` and ends it with a single line break.
pub fn normalize_comment(s: &String) -> (r: String)
    ensures
        r@ == normalized_comment(s@),
{
    let t = trim(s.as_str());
    let r = t.to_owned();
    let nl = "\n";
    proof {
        reveal_strlit("\n");
    }
    let r = r.concat(nl);
    assert(r@ =~= trimmed(s@).push('\n'));
    r
}

impl CodeGeneratorConfig {
    /// The invariant of the sorted maps and of the encoding set.
    pub open spec fn wf(&self) -> bool {
        &&& self.encodings@ == encodings_of(self.encodings@)
        &&& self.external_definitions.wf()
        &&& self.comments.wf()
        &&& self.custom_code.wf()
        &&& self.namespaces.wf()
    }

    /// Default config for the given module name.
    pub fn new(module_name: String) -> (r: Self)
        ensures
            r.wf(),
            r.module_name == module_name,
            r.serialization,
            r.encodings@.len() == 0,
            r.external_definitions@.len() == 0,
            r.comments@.len() == 0,
            r.custom_code@.len() == 0,
            !r.c_style_enums,
            r.package_manifest,
            r.namespaces@.len() == 0,
    {
        let r = CodeGeneratorConfig {
            module_name,
            serialization: true,
            encodings: Vec::new(),
            external_definitions: NameMap::new(),
            comments: QualifiedMap::new(),
            custom_code: QualifiedMap::new(),
            c_style_enums: false,
            package_manifest: true,
            namespaces: NameMap::new(),
        };
        assert(r.encodings@ =~= encodings_of(r.encodings@));
        r
    }

    pub fn module_name(&self) -> (r: &str)
        ensures
            r@ == self.module_name@,
    {
        self.module_name.as_str()
    }

    /// Namespace overrides; a later pair replaces an earlier one of the same name.
    pub fn with_namespaces(self, namespaces: Vec<(String, String)>) -> (r: Self)
        requires
            self.wf(),
        ensures
            r.wf(),
            r == (CodeGeneratorConfig { namespaces: r.namespaces, ..self }),
            forall|k: Seq<char>, c: String| #[trigger] defines(r.namespaces@, k, c) <==> last_binding(namespaces@, namespaces@.len() as int, k, c),
    {
        let mut map: NameMap<String> = NameMap::new();
        let mut i: usize = 0;
        while i < namespaces.len()
            invariant
                i <= namespaces.len(),
                map.wf(),
                forall|k: Seq<char>, c: String| #[trigger] defines(map@, k, c) <==> last_binding(namespaces@, i as int, k, c),
            decreases namespaces.len() - i,
        {
            let key = namespaces[i].0.clone();
            let value = namespaces[i].1.clone();
            let ghost m0 = map@;
            map.insert(key, value);
            proof {
                let s = namespaces@;
                assert forall|k: Seq<char>, c: String| #[trigger] defines(map@, k, c) <==> last_binding(s, i + 1, k, c) by {
                    if k == s[i as int].0@ {
                        if c == s[i as int].1 {
                            assert(last_binding(s, i + 1, k, c));
                        }
                        if last_binding(s, i + 1, k, c) {
                            let q = choose|q: int| 0 <= q < i + 1 && (#[trigger] s[q]).0@ == k && s[q].1 == c && forall|j: int| q < j < i + 1 ==> (#[trigger] s[j]).0@ != k;
                            if q < i {
                                assert(s[i as int].0@ != k);
                            }
                        }
                    } else {
                        assert(defines(map@, k, c) == defines(m0, k, c));
                        if last_binding(s, i as int, k, c) {
                            let q = choose|q: int| 0 <= q < i && (#[trigger] s[q]).0@ == k && s[q].1 == c && forall|j: int| q < j < i ==> (#[trigger] s[j]).0@ != k;
                            assert(last_binding(s, i + 1, k, c));
                        }
                        if last_binding(s, i + 1, k, c) {
                            let q = choose|q: int| 0 <= q < i + 1 && (#[trigger] s[q]).0@ == k && s[q].1 == c && forall|j: int| q < j < i + 1 ==> (#[trigger] s[j]).0@ != k;
                            assert(last_binding(s, i as int, k, c));
                        }
                    }
                }
            }
            i = i + 1;
        }
        CodeGeneratorConfig { namespaces: map, ..self }
    }

    /// Whether to include serialization methods.
    pub fn with_serialization(self, serialization: bool) -> (r: Self)
        ensures
            r == (CodeGeneratorConfig { serialization, ..self }),
    {
        CodeGeneratorConfig { serialization, ..self }
    }

    /// Whether to include specialized methods for specific encodings.
    pub fn with_encodings(self, encodings: Vec<Encoding>) -> (r: Self)
        requires
            self.wf(),
        ensures
            r.wf(),
            r == (CodeGeneratorConfig { encodings: r.encodings, ..self }),
            r.encodings@ == encodings_of(encodings@),
    {
        let mut bincode = false;
        let mut bcs = false;
        let mut i: usize = 0;
        while i < encodings.len()
            invariant
                i <= encodings.len(),
                bincode == encodings@.subrange(0, i as int).contains(Encoding::Bincode),
                bcs == encodings@.subrange(0, i as int).contains(Encoding::Bcs),
            decreases encodings.len() - i,
        {
            let ghost s0 = encodings@.subrange(0, i as int);
            let ghost s1 = encodings@.subrange(0, i + 1);
            assert(s1 =~= s0.push(encodings@[i as int]));
            match encodings[i] {
                Encoding::Bincode => {
                    bincode = true;
                },
                Encoding::Bcs => {
                    bcs = true;
                },
            }
            proof {
                assert(s1[i as int] == encodings@[i as int]);
                assert(s1.contains(Encoding::Bincode) <==> (s0.contains(Encoding::Bincode) || encodings@[i as int] == Encoding::Bincode));
                assert(s1.contains(Encoding::Bcs) <==> (s0.contains(Encoding::Bcs) || encodings@[i as int] == Encoding::Bcs));
            }
            i = i + 1;
        }
        assert(encodings@.subrange(0, encodings.len() as int) =~= encodings@);
        let mut set: Vec<Encoding> = Vec::new();
        if bincode {
            set.push(Encoding::Bincode);
        }
        if bcs {
            set.push(Encoding::Bcs);
        }
        proof {
            assert forall|k: int| 0 <= k < set@.len() implies (set@[k] == Encoding::Bincode ==> bincode) && (set@[k] == Encoding::Bcs ==> bcs) by {}
            if bincode {
                assert(set@[0] == Encoding::Bincode);
            }
            if bcs {
                assert(set@[set@.len() - 1] == Encoding::Bcs);
            }
            assert(set@.contains(Encoding::Bincode) == bincode);
            assert(set@.contains(Encoding::Bcs) == bcs);
        }
        assert(set@ =~= encodings_of(encodings@));
        assert(set@ =~= encodings_of(set@));
        CodeGeneratorConfig { encodings: set, ..self }
    }

    /// Container names provided by external modules.
    pub fn with_external_definitions(self, external_definitions: ExternalDefinitions) -> (r: Self)
        requires
            self.wf(),
            external_definitions.wf(),
        ensures
            r.wf(),
            r == (CodeGeneratorConfig { external_definitions, ..self }),
    {
        CodeGeneratorConfig { external_definitions, ..self }
    }

    /// Comments attached to particular entities, each trimmed and ended by a
    /// single line break.
    pub fn with_comments(self, comments: DocComments) -> (r: Self)
        requires
            self.wf(),
            comments.wf(),
        ensures
            r.wf(),
            r == (CodeGeneratorConfig { comments: r.comments, ..self }),
            r.comments@.len() == comments@.len(),
            forall|i: int| 0 <= i < comments@.len() ==> (#[trigger] r.comments@[i]).0 == comments@[i].0
                && r.comments@[i].1@ == normalized_comment(comments@[i].1@),
    {
        let mut comments = comments;
        let ghost c0 = comments@;
        let mut i: usize = 0;
        while i < comments.len()
            invariant
                i <= comments@.len(),
                comments@.len() == c0.len(),
                paths_sorted(c0),
                forall|j: int| 0 <= j < c0.len() ==> (#[trigger] comments@[j]).0 == c0[j].0,
                forall|j: int| i <= j < c0.len() ==> (#[trigger] comments@[j]).1 == c0[j].1,
                forall|j: int| 0 <= j < i ==> (#[trigger] comments@[j]).1@ == normalized_comment(c0[j].1@),
            decreases c0.len() - i,
        {
            let v = normalize_comment(comments.value(i));
            comments.set_value(i, v);
            i = i + 1;
        }
        assert forall|a: int, b: int| 0 <= a < b < comments@.len() implies crate::order::path_lt(#[trigger] comments@[a].0, #[trigger] comments@[b].0) by {
            assert(comments@[a].0 == c0[a].0);
            assert(comments@[b].0 == c0[b].0);
        }
        CodeGeneratorConfig { comments, ..self }
    }

    /// Custom code attached to particular entities.
    pub fn with_custom_code(self, code: CustomCode) -> (r: Self)
        requires
            self.wf(),
            code.wf(),
        ensures
            r.wf(),
            r == (CodeGeneratorConfig { custom_code: code, ..self }),
    {
        CodeGeneratorConfig { custom_code: code, ..self }
    }

    /// Generate C-style enums (without variant data) as the target language
    /// native enum type in supported languages.
    pub fn with_c_style_enums(self, c_style_enums: bool) -> (r: Self)
        ensures
            r == (CodeGeneratorConfig { c_style_enums, ..self }),
    {
        CodeGeneratorConfig { c_style_enums, ..self }
    }

    /// Generate a package manifest file for the target language.
    pub fn with_package_manifest(self, package_manifest: bool) -> (r: Self)
        ensures
            r == (CodeGeneratorConfig { package_manifest, ..self }),
    {
        CodeGeneratorConfig { package_manifest, ..self }
    }

    /// The container names that external modules provide.
    pub open spec fn external_set(&self) -> Set<Seq<char>> {
        Set::new(|n: Seq<char>| exists|i: int| 0 <= i < self.external_definitions@.len()
            && has_name((#[trigger] self.external_definitions@[i]).1@, n))
    }

    /// Every type name of the external definitions, module by module.
    pub fn external_names(&self) -> (r: Vec<String>)
        ensures
            crate::analyzer::name_set(r@) == self.external_set(),
    {
        let mut r: Vec<String> = Vec::new();
        let defs = &self.external_definitions;
        let mut i: usize = 0;
        while i < defs.len()
            invariant
                i <= defs@.len(),
                defs == &self.external_definitions,
                forall|n: Seq<char>| #![trigger has_name(r@, n)] has_name(r@, n) <==> exists|q: int| 0 <= q < i
                    && has_name((#[trigger] defs@[q]).1@, n),
            decreases defs@.len() - i,
        {
            let names = defs.value(i);
            let ghost r0 = r@;
            let mut j: usize = 0;
            while j < names.len()
                invariant
                    j <= names@.len(),
                    r@.len() == r0.len() + j,
                    forall|t: int| 0 <= t < r0.len() ==> (#[trigger] r@[t]) == r0[t],
                    forall|t: int| 0 <= t < j ==> (#[trigger] r@[r0.len() + t]) == names@[t],
                decreases names@.len() - j,
            {
                r.push(names[j].clone());
                j = j + 1;
            }
            proof {
                assert forall|n: Seq<char>| #![trigger has_name(r@, n)] has_name(r@, n) <==> exists|q: int| 0 <= q < i + 1
                    && has_name((#[trigger] defs@[q]).1@, n) by {
                    if has_name(r@, n) {
                        let k = choose|k: int| 0 <= k < r@.len() && (#[trigger] r@[k])@ == n;
                        if k < r0.len() {
                            assert(r0[k]@ == n);
                            assert(has_name(r0, n));
                        } else {
                            let t = k - r0.len();
                            assert(r@[r0.len() + t] == names@[t]);
                            assert(names@[t]@ == n);
                            assert(has_name(defs@[i as int].1@, n));
                        }
                    }
                    if exists|q: int| 0 <= q < i + 1 && has_name((#[trigger] defs@[q]).1@, n) {
                        let q = choose|q: int| 0 <= q < i + 1 && has_name((#[trigger] defs@[q]).1@, n);
                        if q < i {
                            assert(has_name(r0, n));
                            let k = choose|k: int| 0 <= k < r0.len() && (#[trigger] r0[k])@ == n;
                            assert(r@[k] == r0[k]);
                        } else {
                            let k = choose|k: int| 0 <= k < names@.len() && (#[trigger] names@[k])@ == n;
                            assert(r@[r0.len() + k] == names@[k]);
                        }
                    }
                }
            }
            i = i + 1;
        }
        assert(crate::analyzer::name_set(r@) =~= self.external_set());
        r
    }
}

impl Encoding {
    pub fn name(self) -> (r: &'static str)
        ensures
            r@ == encoding_name(self),
    {
        match self {
            Encoding::Bincode => "bincode",
            Encoding::Bcs => "bcs",
        }
    }
}

proof fn lemma_trim_start_shape(s: Seq<char>)
    ensures
        trim_start_spec(s).len() == 0 || !is_white(trim_start_spec(s)[0]),
    decreases s.len(),
{
    if s.len() > 0 && is_white(s[0]) {
        lemma_trim_start_shape(s.drop_first());
    }
}

proof fn lemma_trim_end_shape(s: Seq<char>)
    ensures
        trim_end_spec(s).len() <= s.len(),
        trim_end_spec(s) == s.subrange(0, trim_end_spec(s).len() as int),
        trim_end_spec(s).len() == 0 || !is_white(trim_end_spec(s).last()),
    decreases s.len(),
{
    if s.len() > 0 && is_white(s.last()) {
        lemma_trim_end_shape(s.drop_last());
        let t = trim_end_spec(s.drop_last());
        assert(s.drop_last().subrange(0, t.len() as int) =~= s.subrange(0, t.len() as int));
    } else {
        assert(s.subrange(0, s.len() as int) =~= s);
    }
}

/// Normalizing an already normalized comment leaves it unchanged.
pub proof fn lemma_normalize_idempotent(s: Seq<char>)
    ensures
        normalized_comment(normalized_comment(s)) == normalized_comment(s),
{
    let y = trim_start_spec(s);
    let t = trimmed(s);
    lemma_trim_start_shape(s);
    lemma_trim_end_shape(y);
    let u = t.push('\n');
    assert(is_white('\n'));
    assert(u.drop_last() =~= t);
    if t.len() == 0 {
        assert(u.drop_first() =~= Seq::<char>::empty());
        assert(trim_start_spec(u) == trim_start_spec(u.drop_first()));
        assert(trim_start_spec(Seq::<char>::empty()) == Seq::<char>::empty());
        assert(trim_end_spec(Seq::<char>::empty()) == Seq::<char>::empty());
    } else {
        assert(t[0] == y[0]);
        assert(u[0] == t[0]);
        assert(trim_start_spec(u) == u);
        assert(trim_end_spec(u) == trim_end_spec(t));
        assert(trim_end_spec(t) == t);
    }
    assert(trimmed(u) == t);
}

} // verus!
