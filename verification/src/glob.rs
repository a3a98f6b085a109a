//! Glob patterns, compiled and matched by the `globset` crate. Whether a pattern
//! compiles and what it matches are globset's: they are named here, not restated.
use vstd::prelude::*;

verus! {

#[verifier::external_type_specification]
#[verifier::external_body]
pub struct ExGlob(globset::Glob);

#[verifier::external_type_specification]
#[verifier::external_body]
pub struct ExGlobSet(globset::GlobSet);

#[verifier::external_type_specification]
#[verifier::external_body]
pub struct ExGlobError(globset::Error);

/// Whether `Glob::new` accepts the pattern.
pub uninterp spec fn glob_parses(pattern: Seq<char>) -> bool;

/// Whether the glob of the pattern matches the path, as globset matches it.
pub uninterp spec fn glob_matches(pattern: Seq<char>, path: Seq<char>) -> bool;

/// Whether `GlobSetBuilder::build` succeeds on the globs of the patterns (it fails
/// when the combined regex exceeds globset's size limit).
pub uninterp spec fn globset_builds(patterns: Seq<Seq<char>>) -> bool;

/// `Glob::new`: parses a glob pattern; the contract claims only that it succeeds
/// exactly on the patterns [`glob_parses`] names.
#[verifier::external_body]
fn glob_new(pattern: &str) -> (r: Result<globset::Glob, globset::Error>)
    ensures
        r is Ok <==> glob_parses(pattern@),
{
    globset::Glob::new(pattern)
}

/// `GlobSetBuilder::build` on a builder given the glob of each pattern in order
/// (`GlobSetBuilder::new`, `Glob::new`, `GlobSetBuilder::add`); `None` exactly where
/// the build fails.
#[verifier::external_body]
fn build_globset(patterns: &[String]) -> (r: Option<globset::GlobSet>)
    requires
        forall|i: int| 0 <= i < patterns@.len() ==> glob_parses(#[trigger] patterns@[i]@),
    ensures
        r is Some <==> globset_builds(strings_view(patterns@)),
{
    let mut builder = globset::GlobSetBuilder::new();
    for pattern in patterns {
        match globset::Glob::new(pattern) {
            Ok(glob) => builder.add(glob),
            Err(_) => return None,
        };
    }
    builder.build().ok()
}

/// A glob pattern globset accepts alone and compiles.
pub open spec fn glob_usable(pattern: Seq<char>) -> bool {
    glob_parses(pattern) && globset_builds(seq![pattern])
}

/// A glob pattern and the one-glob set compiled from it.
pub struct CompiledGlob {
    pattern: String,
    set: CompiledGlobSet,
}

impl CompiledGlob {
    pub closed spec fn pattern(&self) -> Seq<char> {
        self.pattern@
    }

    /// The set holds exactly the pattern.
    #[verifier::type_invariant]
    spec fn wf(self) -> bool {
        self.set.patterns() == seq![self.pattern@]
    }

    /// Compiles a pattern; `None` when globset does not accept it or cannot build it.
    pub fn new(pattern: &str) -> (r: Option<CompiledGlob>)
        ensures
            r is Some <==> glob_usable(pattern@),
            r matches Some(g) ==> g.pattern() == pattern@,
    {
        let patterns = vec![pattern.to_string()];
        assert(strings_view(patterns@) =~= seq![pattern@]);
        if let Ok(_) = glob_new(pattern) {
            assert(valid_patterns(seq![pattern@]) =~= seq![pattern@]) by {
                assert(seq![pattern@].drop_last() =~= Seq::<Seq<char>>::empty());
                assert(valid_patterns(Seq::<Seq<char>>::empty()) =~= Seq::<Seq<char>>::empty());
                assert(seq![pattern@].last() == pattern@);
            }
        } else {
            assert(valid_patterns(seq![pattern@]) =~= Seq::<Seq<char>>::empty()) by {
                assert(seq![pattern@].drop_last() =~= Seq::<Seq<char>>::empty());
                assert(valid_patterns(Seq::<Seq<char>>::empty()) =~= Seq::<Seq<char>>::empty());
                assert(seq![pattern@].last() == pattern@);
            }
        }
        match CompiledGlobSet::build(patterns.as_slice()) {
            Some(set) => Some(CompiledGlob { pattern: pattern.to_string(), set }),
            None => None,
        }
    }

    pub fn is_match(&self, path: &str) -> (r: bool)
        ensures
            r == glob_matches(self.pattern(), path@),
    {
        proof {
            use_type_invariant(self);
        }
        let r = self.set.is_match(path);
        assert(seq![self.pattern@][0] == self.pattern@);
        r
    }
}

/// A set of glob patterns compiled together into one matcher.
pub struct CompiledGlobSet {
    patterns: Vec<String>,
    set: globset::GlobSet,
}

/// `GlobSet::is_match`, which globset documents as "true if any glob in this set
/// matches the path". The claim rests on the set having been built from exactly the
/// stored patterns, which [`CompiledGlobSet::build`], the only constructor, guarantees.
#[verifier::external_body]
fn compiled_globset_is_match(set: &CompiledGlobSet, path: &str) -> (r: bool)
    ensures
        r == (exists|i: int|
            0 <= i < set.patterns@.len() && glob_matches(#[trigger] set.patterns@[i]@, path@)),
{
    set.set.is_match(path)
}

/// Some pattern of the list matches the path.
pub open spec fn any_glob_matches(patterns: Seq<Seq<char>>, path: Seq<char>) -> bool {
    exists|i: int| 0 <= i < patterns.len() && glob_matches(#[trigger] patterns[i], path)
}

/// The patterns of `patterns` that globset accepts, in order.
pub open spec fn valid_patterns(patterns: Seq<Seq<char>>) -> Seq<Seq<char>>
    decreases patterns.len(),
{
    if patterns.len() == 0 {
        Seq::empty()
    } else if glob_parses(patterns.last()) {
        valid_patterns(patterns.drop_last()).push(patterns.last())
    } else {
        valid_patterns(patterns.drop_last())
    }
}

pub open spec fn strings_view(v: Seq<String>) -> Seq<Seq<char>> {
    v.map_values(|s: String| s@)
}

impl CompiledGlobSet {
    pub closed spec fn patterns(&self) -> Seq<Seq<char>> {
        strings_view(self.patterns@)
    }

    /// Compiles the patterns globset accepts into one set, skipping the others; `None`
    /// when none is accepted or when globset fails to build the set.
    pub fn build(patterns: &[String]) -> (r: Option<CompiledGlobSet>)
        ensures
            r is Some <==> valid_patterns(strings_view(patterns@)).len() > 0 && globset_builds(
                valid_patterns(strings_view(patterns@)),
            ),
            r matches Some(s) ==> s.patterns() == valid_patterns(strings_view(patterns@)),
    {
        let mut kept: Vec<String> = Vec::new();
        let mut i: usize = 0;
        while i < patterns.len()
            invariant
                i <= patterns@.len(),
                strings_view(kept@) == valid_patterns(strings_view(patterns@.take(i as int))),
                forall|k: int| 0 <= k < kept@.len() ==> glob_parses(#[trigger] kept@[k]@),
            decreases patterns@.len() - i,
        {
            let pattern = &patterns[i];
            proof {
                assert(strings_view(patterns@.take(i as int + 1)).drop_last() =~= strings_view(
                    patterns@.take(i as int),
                ));
                assert(strings_view(patterns@.take(i as int + 1)).last() == pattern@);
            }
            match glob_new(pattern.as_str()) {
                Ok(_) => {
                    let ghost before = kept@;
                    kept.push(pattern.clone());
                    assert(strings_view(kept@) =~= valid_patterns(strings_view(patterns@.take(i as int))).push(
                        pattern@,
                    ));
                    assert forall|k: int| 0 <= k < kept@.len() implies glob_parses(#[trigger] kept@[k]@) by {
                        if k < before.len() {
                            assert(kept@[k] == before[k]);
                        }
                    }
                },
                Err(_) => {},
            }
            i = i + 1;
        }
        assert(patterns@.take(patterns@.len() as int) =~= patterns@);
        if kept.len() == 0 {
            return None;
        }
        match build_globset(kept.as_slice()) {
            Some(set) => Some(CompiledGlobSet { patterns: kept, set }),
            None => None,
        }
    }

    pub fn is_match(&self, path: &str) -> (r: bool)
        ensures
            r == any_glob_matches(self.patterns(), path@),
    {
        let r = compiled_globset_is_match(self, path);
        proof {
            let ps = strings_view(self.patterns@);
            assert forall|i: int| 0 <= i < ps.len() implies #[trigger] ps[i] == self.patterns@[i]@ by {}
            if r {
                let i = choose|i: int|
                    0 <= i < self.patterns@.len() && glob_matches(#[trigger] self.patterns@[i]@, path@);
                assert(glob_matches(ps[i], path@));
            }
            if any_glob_matches(ps, path@) {
                let i = choose|i: int| 0 <= i < ps.len() && glob_matches(#[trigger] ps[i], path@);
                assert(glob_matches(self.patterns@[i]@, path@));
            }
        }
        r
    }
}

} // verus!
