//! User settings: how `/` is rooted, path mappings with their conditions, the
//! lexical fallback, ignored files and prefixes, and how directories are inserted.
//! [`CompiledSettings`] precomputes what completion reads on every request.
use crate::chars::{string_from_chars, to_chars, utf8_len, str_byte_len};
use crate::context::{normalize_mapping_key, normalized_key};
use crate::glob::{glob_matches, glob_usable, globset_builds, strings_view, CompiledGlob, CompiledGlobSet, valid_patterns};
use crate::order::{lemma_lex_asymmetric, lemma_lex_irreflexive, lemma_lex_total, lemma_lex_transitive, lex_less, lex_lt};
use crate::sorting::{is_stable_sort_of, stable_sort, StrictOrder};
use vstd::prelude::*;

verus! {

/// What a path that starts with `/` is resolved against.
#[derive(Clone, Copy, Debug, PartialEq, Eq, Structural)]
pub enum SlashRoot {
    Filesystem,
    Workspace,
}

impl Default for SlashRoot {
    fn default() -> (r: SlashRoot)
        ensures
            r == SlashRoot::Filesystem,
    {
        SlashRoot::Filesystem
    }
}

/// One target directory or several.
#[derive(Clone, Debug)]
pub enum MappingTargets {
    One(String),
    Many(Vec<String>),
}

pub open spec fn strs_view(v: Seq<&str>) -> Seq<Seq<char>> {
    v.map_values(|s: &str| s@)
}

impl MappingTargets {
    pub open spec fn targets(&self) -> Seq<Seq<char>> {
        match self {
            MappingTargets::One(value) => seq![value@],
            MappingTargets::Many(values) => strings_view(values@),
        }
    }

    /// The target strings, in order.
    pub fn values(&self) -> (r: Vec<&str>)
        ensures
            strs_view(r@) == self.targets(),
    {
        match self {
            MappingTargets::One(value) => {
                let mut out: Vec<&str> = Vec::new();
                out.push(value.as_str());
                assert(strs_view(out@) =~= seq![value@]);
                out
            },
            MappingTargets::Many(values) => {
                let mut out: Vec<&str> = Vec::new();
                let mut i: usize = 0;
                while i < values.len()
                    invariant
                        i <= values@.len(),
                        out@.len() == i,
                        forall|j: int| 0 <= j < i ==> (#[trigger] out@[j])@ == values@[j]@,
                    decreases values@.len() - i,
                {
                    out.push(values[i].as_str());
                    i = i + 1;
                }
                assert(strs_view(out@) =~= strings_view(values@));
                out
            },
        }
    }

    /// Owned copies of the target strings, in order.
    fn to_strings(&self) -> (r: Vec<String>)
        ensures
            strings_view(r@) == self.targets(),
    {
        match self {
            MappingTargets::One(value) => {
                let mut out: Vec<String> = Vec::new();
                out.push(value.clone());
                assert(strings_view(out@) =~= seq![value@]);
                out
            },
            MappingTargets::Many(values) => {
                let mut out: Vec<String> = Vec::new();
                let mut i: usize = 0;
                while i < values.len()
                    invariant
                        i <= values@.len(),
                        out@.len() == i,
                        forall|j: int| 0 <= j < i ==> (#[trigger] out@[j])@ == values@[j]@,
                    decreases values@.len() - i,
                {
                    out.push(values[i].clone());
                    i = i + 1;
                }
                assert(strings_view(out@) =~= strings_view(values@));
                out
            },
        }
    }
}

/// Targets that apply when the document's workspace-relative path matches `when`.
#[derive(Clone, Debug)]
pub struct ConditionalMapping {
    pub when: String,
    pub value: MappingTargets,
}

/// What a mapping key stands for.
#[derive(Clone, Debug)]
pub enum PathMapping {
    Targets(MappingTargets),
    Conditional { conditions: Vec<ConditionalMapping> },
}

/// The settings as the user writes them. `path_mappings` is kept ordered by key
/// (see [`PathSenseSettings::insert_path_mapping`]).
#[derive(Clone, Debug)]
pub struct PathSenseSettings {
    pub slash_root: SlashRoot,
    pub path_mappings: Vec<(String, PathMapping)>,
    pub trigger_outside_strings: bool,
    pub path_separators: String,
    pub disable_up_one_folder: bool,
    pub ignored_files_patterns: Vec<String>,
    pub ignored_prefixes: Vec<String>,
    pub directory_suffix: String,
    pub min_auto_trigger_word_length: usize,
}

pub open spec fn mapping_keys_of(m: Seq<(String, PathMapping)>) -> Seq<Seq<char>> {
    m.map_values(|e: (String, PathMapping)| e.0@)
}

/// Keys strictly increasing, so each key occurs once.
pub open spec fn keys_sorted(keys: Seq<Seq<char>>) -> bool {
    forall|i: int, j: int| 0 <= i < j < keys.len() ==> lex_lt(#[trigger] keys[i], #[trigger] keys[j])
}

/// Some entry has this key and this mapping.
pub open spec fn has_entry(m: Seq<(String, PathMapping)>, key: Seq<char>, mapping: PathMapping) -> bool {
    exists|i: int| 0 <= i < m.len() && (#[trigger] m[i]).0@ == key && m[i].1 == mapping
}

impl Default for PathSenseSettings {
    fn default() -> (r: PathSenseSettings)
        ensures
            r.slash_root == SlashRoot::Filesystem,
            r.path_mappings@.len() == 0,
            !r.trigger_outside_strings,
            r.path_separators@ == seq![' ', '\t', '(', '{', '['],
            !r.disable_up_one_folder,
            r.ignored_files_patterns@.len() == 0,
            r.ignored_prefixes@.len() == 0,
            r.directory_suffix@ == seq!['/'],
            r.min_auto_trigger_word_length == 0,
    {
        let separators = " \t({[".to_string();
        let suffix = "/".to_string();
        proof {
            reveal_strlit(" \t({[");
            reveal_strlit("/");
        }
        assert(separators@ =~= seq![' ', '\t', '(', '{', '[']);
        assert(suffix@ =~= seq!['/']);
        PathSenseSettings {
            slash_root: SlashRoot::Filesystem,
            path_mappings: Vec::new(),
            trigger_outside_strings: false,
            path_separators: separators,
            disable_up_one_folder: false,
            ignored_files_patterns: Vec::new(),
            ignored_prefixes: Vec::new(),
            directory_suffix: suffix,
            min_auto_trigger_word_length: 0,
        }
    }
}

impl PathSenseSettings {
    /// Inserting a directory ends with a slash, so completion should reopen.
    pub fn should_retrigger_after_directory_completion(&self) -> (r: bool)
        ensures
            r == self.directory_suffix@.contains('/'),
    {
        crate::strs::vec_contains(&to_chars(self.directory_suffix.as_str()), '/')
    }

    /// Sets the mapping of `key`, replacing an earlier one, and keeps the keys ordered.
    pub fn insert_path_mapping(&mut self, key: String, mapping: PathMapping)
        ensures
            keys_sorted(mapping_keys_of(old(self).path_mappings@)) ==> keys_sorted(
                mapping_keys_of(final(self).path_mappings@),
            ),
            has_entry(final(self).path_mappings@, key@, mapping),
            forall|k: Seq<char>, m: PathMapping|
                k != key@ ==> (has_entry(final(self).path_mappings@, k, m) <==> has_entry(
                    old(self).path_mappings@,
                    k,
                    m,
                )),
            final(self).slash_root == old(self).slash_root,
            final(self).trigger_outside_strings == old(self).trigger_outside_strings,
            final(self).path_separators == old(self).path_separators,
            final(self).disable_up_one_folder == old(self).disable_up_one_folder,
            final(self).ignored_files_patterns == old(self).ignored_files_patterns,
            final(self).ignored_prefixes == old(self).ignored_prefixes,
            final(self).directory_suffix == old(self).directory_suffix,
            final(self).min_auto_trigger_word_length == old(self).min_auto_trigger_word_length,
    {
        let ghost m0 = self.path_mappings@;
        let k = to_chars(key.as_str());
        let mut p: usize = 0;
        while p < self.path_mappings.len() && lex_less(&to_chars(self.path_mappings[p].0.as_str()), &k)
            invariant
                m0 == self.path_mappings@,
                k@ == key@,
                p <= m0.len(),
                forall|i: int| 0 <= i < p ==> lex_lt(#[trigger] m0[i].0@, key@),
            decreases m0.len() - p,
        {
            p = p + 1;
        }
        let replace = p < self.path_mappings.len() && crate::strs::vec_eq(
            &to_chars(self.path_mappings[p].0.as_str()),
            &k,
        );
        let ghost km = mapping_keys_of(m0);
        if replace {
            let ghost old_entry = m0[p as int];
            self.path_mappings.set(p, (key, mapping));
            proof {
                let m1 = self.path_mappings@;
                assert(m1[p as int].0@ == old_entry.0@);
                assert(mapping_keys_of(m1) =~= km);
                assert(has_entry(m1, key@, mapping)) by {
                    assert(m1[p as int].0@ == key@);
                }
                assert forall|kk: Seq<char>, mm: PathMapping| kk != key@ implies (has_entry(
                    m1,
                    kk,
                    mm,
                ) <==> has_entry(m0, kk, mm)) by {
                    if has_entry(m1, kk, mm) {
                        let i = choose|i: int| 0 <= i < m1.len() && (#[trigger] m1[i]).0@ == kk && m1[i].1 == mm;
                        assert(i != p);
                        assert(m0[i] == m1[i]);
                    }
                    if has_entry(m0, kk, mm) {
                        let i = choose|i: int| 0 <= i < m0.len() && (#[trigger] m0[i]).0@ == kk && m0[i].1 == mm;
                        assert(i != p);
                        assert(m0[i] == m1[i]);
                    }
                }
            }
        } else {
            self.path_mappings.insert(p, (key, mapping));
            proof {
                let m1 = self.path_mappings@;
                assert(m1[p as int].0@ == key@);
                assert(has_entry(m1, key@, mapping));
                if p < m0.len() {
                    lemma_lex_total(m0[p as int].0@, key@);
                }
                assert forall|i: int, j: int| 0 <= i < j < m1.len() && keys_sorted(km) implies lex_lt(
                    #[trigger] mapping_keys_of(m1)[i],
                    #[trigger] mapping_keys_of(m1)[j],
                ) by {
                    let ki = mapping_keys_of(m1)[i];
                    let kj = mapping_keys_of(m1)[j];
                    if j < p {
                        assert(ki == km[i] && kj == km[j]);
                    } else if j == p {
                        assert(ki == m0[i].0@);
                    } else if i < p {
                        assert(kj == m0[j - 1].0@);
                        assert(ki == m0[i].0@);
                        assert(lex_lt(ki, key@));
                        if j - 1 > p {
                            assert(lex_lt(km[p as int], km[j - 1]));
                            lemma_lex_transitive(key@, km[p as int], km[j - 1]);
                        }
                        lemma_lex_transitive(ki, key@, kj);
                    } else if i == p {
                        assert(kj == m0[j - 1].0@);
                        if j - 1 > p {
                            assert(lex_lt(km[p as int], km[j - 1]));
                            lemma_lex_transitive(key@, km[p as int], km[j - 1]);
                        }
                    } else {
                        assert(ki == km[i - 1] && kj == km[j - 1]);
                    }
                }
                assert forall|kk: Seq<char>, mm: PathMapping| kk != key@ implies (has_entry(
                    m1,
                    kk,
                    mm,
                ) <==> has_entry(m0, kk, mm)) by {
                    if has_entry(m1, kk, mm) {
                        let i = choose|i: int| 0 <= i < m1.len() && (#[trigger] m1[i]).0@ == kk && m1[i].1 == mm;
                        assert(i != p);
                        if i < p {
                            assert(m0[i] == m1[i]);
                        } else {
                            assert(m0[i - 1] == m1[i]);
                        }
                    }
                    if has_entry(m0, kk, mm) {
                        let i = choose|i: int| 0 <= i < m0.len() && (#[trigger] m0[i]).0@ == kk && m0[i].1 == mm;
                        if i < p {
                            assert(m0[i] == m1[i]);
                        } else {
                            assert(m0[i] == m1[i + 1]);
                        }
                    }
                }
            }
        }
    }
}

/// The condition's glob compiles and matches the document's workspace-relative path.
pub open spec fn condition_applies(when: Seq<char>, relative_document_path: Option<Seq<char>>) -> bool {
    match relative_document_path {
        Some(path) => glob_usable(when) && glob_matches(when, path),
        None => false,
    }
}

/// The targets of the conditions that apply, in order.
pub open spec fn conditions_expansion(
    conditions: Seq<ConditionalMapping>,
    relative_document_path: Option<Seq<char>>,
) -> Seq<Seq<char>>
    decreases conditions.len(),
{
    if conditions.len() == 0 {
        Seq::empty()
    } else {
        let rest = conditions_expansion(conditions.drop_last(), relative_document_path);
        if condition_applies(conditions.last().when@, relative_document_path) {
            rest + conditions.last().value.targets()
        } else {
            rest
        }
    }
}

/// A list of conditions split in two expands to the expansion of the first part
/// followed by that of the second: every condition that applies contributes its
/// targets, whatever the conditions before it contributed, in condition order.
pub proof fn lemma_conditions_expansion_append(
    a: Seq<ConditionalMapping>,
    b: Seq<ConditionalMapping>,
    relative_document_path: Option<Seq<char>>,
)
    ensures
        conditions_expansion(a + b, relative_document_path) == conditions_expansion(a, relative_document_path)
            + conditions_expansion(b, relative_document_path),
    decreases b.len(),
{
    if b.len() == 0 {
        assert(a + b =~= a);
        assert(conditions_expansion(a, relative_document_path) + Seq::<Seq<char>>::empty() =~= conditions_expansion(
            a,
            relative_document_path,
        ));
    } else {
        lemma_conditions_expansion_append(a, b.drop_last(), relative_document_path);
        assert((a + b).drop_last() =~= a + b.drop_last());
        assert((a + b).last() == b.last());
        let ea = conditions_expansion(a, relative_document_path);
        let eb = conditions_expansion(b.drop_last(), relative_document_path);
        assert(ea + eb + b.last().value.targets() =~= ea + (eb + b.last().value.targets()));
    }
}

/// One condition expands to its targets when it applies to the document, and to
/// nothing otherwise.
pub proof fn lemma_conditions_expansion_single(
    condition: ConditionalMapping,
    relative_document_path: Option<Seq<char>>,
)
    ensures
        conditions_expansion(seq![condition], relative_document_path) == (if condition_applies(
            condition.when@,
            relative_document_path,
        ) {
            condition.value.targets()
        } else {
            Seq::<Seq<char>>::empty()
        }),
{
    let s = seq![condition];
    assert(s.drop_last() =~= Seq::<ConditionalMapping>::empty());
    assert(s.last() == condition);
    assert(conditions_expansion(s.drop_last(), relative_document_path) =~= Seq::<Seq<char>>::empty());
    assert(Seq::<Seq<char>>::empty() + condition.value.targets() =~= condition.value.targets());
}

/// The target strings a mapping stands for in a document.
pub open spec fn mapping_expansion(mapping: PathMapping, relative_document_path: Option<Seq<char>>) -> Seq<Seq<char>> {
    match mapping {
        PathMapping::Targets(targets) => targets.targets(),
        PathMapping::Conditional { conditions } => conditions_expansion(conditions@, relative_document_path),
    }
}

pub open spec fn opt_str_view(s: Option<&str>) -> Option<Seq<char>> {
    match s {
        Some(s) => Some(s@),
        None => None,
    }
}

/// A condition with its glob compiled once; no matcher when the glob does not compile.
pub struct CompiledConditionalMapping {
    matcher: Option<CompiledGlob>,
    values: Vec<String>,
}

impl CompiledConditionalMapping {
    pub closed spec fn pattern(&self) -> Option<Seq<char>> {
        match self.matcher {
            Some(g) => Some(g.pattern()),
            None => None,
        }
    }

    pub closed spec fn target_values(&self) -> Seq<Seq<char>> {
        strings_view(self.values@)
    }

    pub open spec fn applies(&self, relative_document_path: Option<Seq<char>>) -> bool {
        match (relative_document_path, self.pattern()) {
            (Some(path), Some(pattern)) => glob_matches(pattern, path),
            _ => false,
        }
    }

    fn compile(condition: &ConditionalMapping) -> (r: CompiledConditionalMapping)
        ensures
            r.pattern() == (if glob_usable(condition.when@) {
                Some(condition.when@)
            } else {
                None::<Seq<char>>
            }),
            r.target_values() == condition.value.targets(),
            forall|rel: Option<Seq<char>>| #[trigger] r.applies(rel) == condition_applies(condition.when@, rel),
    {
        CompiledConditionalMapping {
            matcher: CompiledGlob::new(condition.when.as_str()),
            values: condition.value.to_strings(),
        }
    }

    /// The condition holds for the document's workspace-relative path.
    pub fn matches(&self, relative_document_path: Option<&str>) -> (r: bool)
        ensures
            r == self.applies(opt_str_view(relative_document_path)),
    {
        match (relative_document_path, &self.matcher) {
            (Some(path), Some(matcher)) => matcher.is_match(path),
            _ => false,
        }
    }

    pub fn values(&self) -> (r: Vec<&str>)
        ensures
            strs_view(r@) == self.target_values(),
    {
        let mut out: Vec<&str> = Vec::new();
        let mut i: usize = 0;
        while i < self.values.len()
            invariant
                i <= self.values@.len(),
                out@.len() == i,
                forall|j: int| 0 <= j < i ==> (#[trigger] out@[j])@ == self.values@[j]@,
            decreases self.values@.len() - i,
        {
            out.push(self.values[i].as_str());
            i = i + 1;
        }
        assert(strs_view(out@) =~= strings_view(self.values@));
        out
    }
}

enum CompiledPathMapping {
    Targets(Vec<String>),
    Conditional { conditions: Vec<CompiledConditionalMapping> },
}

spec fn compiled_conditions_expansion(
    conditions: Seq<CompiledConditionalMapping>,
    relative_document_path: Option<Seq<char>>,
) -> Seq<Seq<char>>
    decreases conditions.len(),
{
    if conditions.len() == 0 {
        Seq::empty()
    } else {
        let rest = compiled_conditions_expansion(conditions.drop_last(), relative_document_path);
        if conditions.last().applies(relative_document_path) {
            rest + conditions.last().target_values()
        } else {
            rest
        }
    }
}

spec fn compiled_expansion(mapping: CompiledPathMapping, relative_document_path: Option<Seq<char>>) -> Seq<Seq<char>> {
    match mapping {
        CompiledPathMapping::Targets(values) => strings_view(values@),
        CompiledPathMapping::Conditional { conditions } => compiled_conditions_expansion(
            conditions@,
            relative_document_path,
        ),
    }
}

fn compile_mapping(mapping: &PathMapping) -> (r: CompiledPathMapping)
    ensures
        forall|rel: Option<Seq<char>>| #[trigger] compiled_expansion(r, rel) == mapping_expansion(*mapping, rel),
{
    match mapping {
        PathMapping::Targets(targets) => CompiledPathMapping::Targets(targets.to_strings()),
        PathMapping::Conditional { conditions } => {
            let mut out: Vec<CompiledConditionalMapping> = Vec::new();
            let mut i: usize = 0;
            while i < conditions.len()
                invariant
                    i <= conditions@.len(),
                    forall|rel: Option<Seq<char>>|
                        #[trigger] compiled_conditions_expansion(out@, rel) == conditions_expansion(
                            conditions@.take(i as int),
                            rel,
                        ),
                decreases conditions@.len() - i,
            {
                let ghost before = out@;
                let c = CompiledConditionalMapping::compile(&conditions[i]);
                out.push(c);
                proof {
                    assert(out@.drop_last() =~= before);
                    assert(conditions@.take(i as int + 1).drop_last() =~= conditions@.take(i as int));
                    assert forall|rel: Option<Seq<char>>|
                        #[trigger] compiled_conditions_expansion(out@, rel) == conditions_expansion(
                            conditions@.take(i as int + 1),
                            rel,
                        ) by {
                        assert(compiled_conditions_expansion(before, rel) == conditions_expansion(
                            conditions@.take(i as int),
                            rel,
                        ));
                        assert(conditions@.take(i as int + 1).last() == conditions@[i as int]);
                        assert(out@.last() == c);
                        assert(c.applies(rel) == condition_applies(conditions@[i as int].when@, rel));
                    }
                }
                i = i + 1;
            }
            assert(conditions@.take(conditions@.len() as int) =~= conditions@);
            CompiledPathMapping::Conditional { conditions: out }
        },
    }
}

/// A mapping key, normalized, with its compiled mapping.
pub struct CompiledMappingEntry {
    normalized_key: String,
    mapping: CompiledPathMapping,
}

/// Key `a` sorts ahead of key `b`: longer keys first (by UTF-8 length), then in
/// string order.
pub open spec fn key_before(a: Seq<char>, b: Seq<char>) -> bool {
    utf8_len(a) > utf8_len(b) || (utf8_len(a) == utf8_len(b) && lex_lt(a, b))
}

impl CompiledMappingEntry {
    pub closed spec fn key(&self) -> Seq<char> {
        self.normalized_key@
    }

    /// The target strings this entry stands for in a document.
    pub closed spec fn expansion(&self, relative_document_path: Option<Seq<char>>) -> Seq<Seq<char>> {
        compiled_expansion(self.mapping, relative_document_path)
    }

    pub fn normalized_key(&self) -> (r: &str)
        ensures
            r@ == self.key(),
    {
        self.normalized_key.as_str()
    }

    /// The targets for the document whose workspace-relative path is given: all of
    /// them for a plain mapping, those of the matching conditions otherwise.
    pub fn expand_targets(&self, relative_document_path: Option<&str>) -> (r: Vec<&str>)
        ensures
            strs_view(r@) == self.expansion(opt_str_view(relative_document_path)),
    {
        let ghost rel = opt_str_view(relative_document_path);
        match &self.mapping {
            CompiledPathMapping::Targets(values) => {
                let mut out: Vec<&str> = Vec::new();
                let mut i: usize = 0;
                while i < values.len()
                    invariant
                        i <= values@.len(),
                        out@.len() == i,
                        forall|j: int| 0 <= j < i ==> (#[trigger] out@[j])@ == values@[j]@,
                    decreases values@.len() - i,
                {
                    out.push(values[i].as_str());
                    i = i + 1;
                }
                assert(strs_view(out@) =~= strings_view(values@));
                out
            },
            CompiledPathMapping::Conditional { conditions } => {
                let mut out: Vec<&str> = Vec::new();
                let mut i: usize = 0;
                while i < conditions.len()
                    invariant
                        i <= conditions@.len(),
                        rel == opt_str_view(relative_document_path),
                        strs_view(out@) == compiled_conditions_expansion(conditions@.take(i as int), rel),
                    decreases conditions@.len() - i,
                {
                    let condition = &conditions[i];
                    let ghost before = out@;
                    proof {
                        assert(conditions@.take(i as int + 1).drop_last() =~= conditions@.take(i as int));
                    }
                    if condition.matches(relative_document_path) {
                        let values = condition.values();
                        let mut j: usize = 0;
                        while j < values.len()
                            invariant
                                j <= values@.len(),
                                out@.len() == before.len() + j,
                                forall|k: int| 0 <= k < before.len() ==> #[trigger] out@[k] == before[k],
                                forall|k: int| 0 <= k < j ==> (#[trigger] out@[before.len() + k])@ == values@[k]@,
                            decreases values@.len() - j,
                        {
                            out.push(values[j]);
                            j = j + 1;
                        }
                        assert forall|k: int| before.len() <= k < out@.len() implies (#[trigger] out@[k])@
                            == values@[k - before.len()]@ by {
                            assert(out@[before.len() + (k - before.len())] == out@[k]);
                        }
                        assert(strs_view(out@) =~= strs_view(before) + strs_view(values@));
                    }
                    i = i + 1;
                }
                assert(conditions@.take(conditions@.len() as int) =~= conditions@);
                out
            },
        }
    }
}

proof fn lemma_key_before_neg_transitive(a: Seq<char>, b: Seq<char>, c: Seq<char>)
    requires
        key_before(a, b),
        !key_before(c, b),
    ensures
        key_before(a, c),
{
    lemma_lex_total(c, b);
    if utf8_len(a) == utf8_len(b) && utf8_len(b) == utf8_len(c) {
        if c != b {
            lemma_lex_asymmetric(b, c);
            lemma_lex_transitive(a, b, c);
        }
    }
}

impl StrictOrder for CompiledMappingEntry {
    open spec fn before(a: Self, b: Self) -> bool {
        key_before(a.key(), b.key())
    }

    proof fn lemma_irreflexive(a: Self) {
        lemma_lex_irreflexive(a.key());
    }

    proof fn lemma_transitive(a: Self, b: Self, c: Self) {
        if utf8_len(a.key()) == utf8_len(b.key()) && utf8_len(b.key()) == utf8_len(c.key()) {
            lemma_lex_transitive(a.key(), b.key(), c.key());
        }
    }

    proof fn lemma_neg_transitive(a: Self, b: Self, c: Self) {
        lemma_key_before_neg_transitive(a.key(), b.key(), c.key());
    }

    fn precedes(&self, other: &Self) -> (r: bool) {
        let la = str_byte_len(self.normalized_key.as_str());
        let lb = str_byte_len(other.normalized_key.as_str());
        la > lb || (la == lb && lex_less(
            &to_chars(self.normalized_key.as_str()),
            &to_chars(other.normalized_key.as_str()),
        ))
    }
}

/// Entry `e` is the entry of mapping key `key` with `mapping`.
pub open spec fn entry_compiled_from(e: CompiledMappingEntry, key: Seq<char>, mapping: PathMapping) -> bool {
    &&& e.key() == normalized_key(key)
    &&& forall|rel: Option<Seq<char>>| #[trigger] e.expansion(rel) == mapping_expansion(mapping, rel)
}

/// `entries` are the entries of the mappings `m`, longest key first and then in key
/// order, with entries of equal keys in the order of `m`; `perm` says which mapping
/// each entry comes from.
pub open spec fn entries_sorted_from(
    entries: Seq<CompiledMappingEntry>,
    m: Seq<(String, PathMapping)>,
    perm: Seq<int>,
) -> bool {
    &&& perm.len() == entries.len() == m.len()
    &&& forall|k: int|
        0 <= k < entries.len() ==> 0 <= #[trigger] perm[k] < m.len() && entry_compiled_from(
            entries[k],
            m[perm[k]].0@,
            m[perm[k]].1,
        )
    &&& forall|k: int, l: int| 0 <= k < l < entries.len() ==> perm[k] != perm[l]
    &&& forall|k: int, l: int|
        0 <= k < l < entries.len() ==> !key_before(#[trigger] entries[l].key(), #[trigger] entries[k].key())
    &&& forall|k: int, l: int|
        0 <= k < l < entries.len() && !key_before(#[trigger] entries[k].key(), #[trigger] entries[l].key())
            ==> perm[k] < perm[l]
}

/// Settings with mapping keys normalized, mapping entries compiled and ordered for
/// lookup, and the ignored-files globs compiled into one set.
pub struct CompiledSettings {
    raw: PathSenseSettings,
    normalized_path_mapping_keys: Vec<String>,
    mapping_entries: Vec<CompiledMappingEntry>,
    ignored_files_matcher: Option<CompiledGlobSet>,
}

impl CompiledSettings {
    pub closed spec fn raw_settings(&self) -> PathSenseSettings {
        self.raw
    }

    /// The normalized mapping keys, in the order of the mappings.
    pub closed spec fn mapping_keys(&self) -> Seq<Seq<char>> {
        strings_view(self.normalized_path_mapping_keys@)
    }

    pub closed spec fn entries(&self) -> Seq<CompiledMappingEntry> {
        self.mapping_entries@
    }

    /// No entry sorts ahead of an earlier one.
    pub open spec fn wf(&self) -> bool {
        forall|k: int, l: int|
            0 <= k < l < self.entries().len() ==> !key_before(
                #[trigger] self.entries()[l].key(),
                #[trigger] self.entries()[k].key(),
            )
    }

    /// The patterns of the ignored-files set, when there is one.
    pub closed spec fn ignored_patterns(&self) -> Option<Seq<Seq<char>>> {
        match self.ignored_files_matcher {
            Some(set) => Some(set.patterns()),
            None => None,
        }
    }

    /// Compiles the settings. Mapping keys lose their trailing slashes (`/` stays);
    /// entries are ordered longest key first, then by key, equal keys in mapping
    /// order; the ignored-files patterns globset accepts form one set, the others
    /// are skipped.
    pub fn from_settings(raw: PathSenseSettings) -> (r: CompiledSettings)
        ensures
            r.wf(),
            r.raw_settings() == raw,
            r.mapping_keys() == mapping_keys_of(raw.path_mappings@).map_values(|k: Seq<char>| normalized_key(k)),
            exists|perm: Seq<int>| entries_sorted_from(r.entries(), raw.path_mappings@, perm),
            r.ignored_patterns() is Some <==> valid_patterns(strings_view(raw.ignored_files_patterns@)).len() > 0
                && globset_builds(valid_patterns(strings_view(raw.ignored_files_patterns@))),
            r.ignored_patterns() matches Some(ps) ==> ps == valid_patterns(strings_view(raw.ignored_files_patterns@)),
    {
        let ghost m = raw.path_mappings@;
        let mut keys: Vec<String> = Vec::new();
        let mut unsorted: Vec<CompiledMappingEntry> = Vec::new();
        let mut i: usize = 0;
        while i < raw.path_mappings.len()
            invariant
                m == raw.path_mappings@,
                i <= m.len(),
                keys@.len() == i,
                unsorted@.len() == i,
                forall|k: int| 0 <= k < i ==> (#[trigger] keys@[k])@ == normalized_key(m[k].0@),
                forall|k: int| 0 <= k < i ==> entry_compiled_from(#[trigger] unsorted@[k], m[k].0@, m[k].1),
            decreases m.len() - i,
        {
            let entry = &raw.path_mappings[i];
            let key = string_from_chars(normalize_mapping_key(&to_chars(entry.0.as_str())).as_slice());
            let compiled = CompiledMappingEntry { normalized_key: key.clone(), mapping: compile_mapping(&entry.1) };
            keys.push(key);
            unsorted.push(compiled);
            i = i + 1;
        }
        assert(strings_view(keys@) =~= mapping_keys_of(m).map_values(|k: Seq<char>| normalized_key(k)));
        let ghost u = unsorted@;
        let sorted = stable_sort(unsorted);
        let ghost perm = choose|perm: Seq<int>| is_stable_sort_of(sorted@, u, perm);
        proof {
            assert forall|k: int| 0 <= k < sorted@.len() implies 0 <= #[trigger] perm[k] < m.len()
                && entry_compiled_from(sorted@[k], m[perm[k]].0@, m[perm[k]].1) by {
                assert(sorted@[k] == u[perm[k]]);
            }
            assert forall|k: int, l: int| 0 <= k < l < sorted@.len() implies !key_before(
                #[trigger] sorted@[l].key(),
                #[trigger] sorted@[k].key(),
            ) by {
                assert(!<CompiledMappingEntry as StrictOrder>::before(sorted@[l], sorted@[k]));
            }
            assert forall|k: int, l: int|
                0 <= k < l < sorted@.len() && !key_before(
                    #[trigger] sorted@[k].key(),
                    #[trigger] sorted@[l].key(),
                ) implies perm[k] < perm[l] by {
                assert(!<CompiledMappingEntry as StrictOrder>::before(sorted@[k], sorted@[l]));
            }
            assert(entries_sorted_from(sorted@, m, perm));
        }
        let ignored = CompiledGlobSet::build(raw.ignored_files_patterns.as_slice());
        let r = CompiledSettings {
            raw,
            normalized_path_mapping_keys: keys,
            mapping_entries: sorted,
            ignored_files_matcher: ignored,
        };
        assert(entries_sorted_from(r.entries(), m, perm));
        r
    }

    pub fn raw(&self) -> (r: &PathSenseSettings)
        ensures
            *r == self.raw_settings(),
    {
        &self.raw
    }

    pub fn slash_root(&self) -> (r: SlashRoot)
        ensures
            r == self.raw_settings().slash_root,
    {
        self.raw.slash_root
    }

    pub fn trigger_outside_strings(&self) -> (r: bool)
        ensures
            r == self.raw_settings().trigger_outside_strings,
    {
        self.raw.trigger_outside_strings
    }

    pub fn path_separators(&self) -> (r: &str)
        ensures
            r@ == self.raw_settings().path_separators@,
    {
        self.raw.path_separators.as_str()
    }

    pub fn disable_up_one_folder(&self) -> (r: bool)
        ensures
            r == self.raw_settings().disable_up_one_folder,
    {
        self.raw.disable_up_one_folder
    }

    pub fn ignored_prefixes(&self) -> (r: &[String])
        ensures
            r@ == self.raw_settings().ignored_prefixes@,
    {
        self.raw.ignored_prefixes.as_slice()
    }

    pub fn directory_suffix(&self) -> (r: &str)
        ensures
            r@ == self.raw_settings().directory_suffix@,
    {
        self.raw.directory_suffix.as_str()
    }

    pub fn min_auto_trigger_word_length(&self) -> (r: usize)
        ensures
            r == self.raw_settings().min_auto_trigger_word_length,
    {
        self.raw.min_auto_trigger_word_length
    }

    pub fn should_retrigger_after_directory_completion(&self) -> (r: bool)
        ensures
            r == self.raw_settings().directory_suffix@.contains('/'),
    {
        self.raw.should_retrigger_after_directory_completion()
    }

    pub fn normalized_path_mapping_keys(&self) -> (r: &[String])
        ensures
            strings_view(r@) == self.mapping_keys(),
    {
        self.normalized_path_mapping_keys.as_slice()
    }

    pub fn mapping_entries(&self) -> (r: &[CompiledMappingEntry])
        ensures
            r@ == self.entries(),
    {
        self.mapping_entries.as_slice()
    }

    pub fn ignored_files_matcher(&self) -> (r: Option<&CompiledGlobSet>)
        ensures
            match r {
                Some(set) => self.ignored_patterns() == Some(set.patterns()),
                None => self.ignored_patterns() is None,
            },
    {
        match &self.ignored_files_matcher {
            Some(set) => Some(set),
            None => None,
        }
    }
}

impl Default for CompiledSettings {
    fn default() -> (r: CompiledSettings)
        ensures
            r.wf(),
            r.raw_settings().path_mappings@.len() == 0,
            r.raw_settings().slash_root == SlashRoot::Filesystem,
            !r.raw_settings().trigger_outside_strings,
            r.raw_settings().path_separators@ == seq![' ', '\t', '(', '{', '['],
            !r.raw_settings().disable_up_one_folder,
            r.raw_settings().ignored_files_patterns@.len() == 0,
            r.raw_settings().ignored_prefixes@.len() == 0,
            r.raw_settings().directory_suffix@ == seq!['/'],
            r.raw_settings().min_auto_trigger_word_length == 0,
            r.mapping_keys().len() == 0,
            r.entries().len() == 0,
            r.ignored_patterns() is None,
    {
        let r = CompiledSettings::from_settings(PathSenseSettings::default());
        proof {
            let perm = choose|perm: Seq<int>| entries_sorted_from(r.entries(), r.raw_settings().path_mappings@, perm);
            assert(valid_patterns(strings_view(r.raw_settings().ignored_files_patterns@)).len() == 0) by {
                assert(strings_view(r.raw_settings().ignored_files_patterns@) =~= Seq::<Seq<char>>::empty());
            }
        }
        r
    }
}

} // verus!
