//! What the language server decides on its own: the characters that trigger
//! completion, and how a request's trigger is read.
use crate::chars::{string_from_chars, to_chars};
use crate::glob::strings_view;
use crate::strs::vec_eq;
use vstd::prelude::*;

verus! {

/// The characters that start an identifier-like path segment.
pub open spec fn word_characters() -> Seq<char> {
    "abcdefghijklmnopqrstuvwxyzABCDEFGHIJKLMNOPQRSTUVWXYZ0123456789_-"@
}

pub open spec fn singletons(cs: Seq<char>) -> Seq<Seq<char>> {
    cs.map_values(|c: char| seq![c])
}

/// Each word character as a one-character string.
pub fn word_trigger_characters() -> (r: Vec<String>)
    ensures
        strings_view(r@) == singletons(word_characters()),
{
    let cs = to_chars("abcdefghijklmnopqrstuvwxyzABCDEFGHIJKLMNOPQRSTUVWXYZ0123456789_-");
    let mut out: Vec<String> = Vec::new();
    let mut i: usize = 0;
    while i < cs.len()
        invariant
            i <= cs@.len(),
            cs@ == word_characters(),
            out@.len() == i,
            forall|j: int| 0 <= j < i ==> (#[trigger] out@[j])@ == seq![cs@[j]],
        decreases cs@.len() - i,
    {
        let mut one: Vec<char> = Vec::new();
        one.push(cs[i]);
        out.push(string_from_chars(one.as_slice()));
        i = i + 1;
    }
    assert(strings_view(out@) =~= singletons(word_characters()));
    out
}

/// The first occurrence of each one-character string of `xs`, in order, after those
/// already in `acc`.
pub open spec fn add_single_characters(acc: Seq<Seq<char>>, xs: Seq<Seq<char>>) -> Seq<Seq<char>>
    decreases xs.len(),
{
    if xs.len() == 0 {
        acc
    } else if xs[0].len() == 1 && !acc.contains(xs[0]) {
        add_single_characters(acc.push(xs[0]), xs.drop_first())
    } else {
        add_single_characters(acc, xs.drop_first())
    }
}

/// The trigger characters: the word characters, `/`, `.` and `~`, then each
/// one-character alias prefix not already among them.
pub open spec fn trigger_characters(aliases: Seq<Seq<char>>) -> Seq<Seq<char>> {
    add_single_characters(
        Seq::empty(),
        singletons(word_characters()) + seq![seq!['/'], seq!['.'], seq!['~']] + aliases,
    )
}

proof fn lemma_add_single_characters(acc: Seq<Seq<char>>, xs: Seq<Seq<char>>)
    requires
        acc.no_duplicates(),
    ensures
        add_single_characters(acc, xs).no_duplicates(),
        forall|i: int| 0 <= i < acc.len() ==> add_single_characters(acc, xs).contains(#[trigger] acc[i]),
        forall|i: int| 0 <= i < xs.len() && (#[trigger] xs[i]).len() == 1 ==> add_single_characters(acc, xs).contains(xs[i]),
        forall|s: Seq<char>| #[trigger] add_single_characters(acc, xs).contains(s) ==> acc.contains(s) || (xs.contains(s) && s.len() == 1),
    decreases xs.len(),
{
    if xs.len() > 0 {
        let next = if xs[0].len() == 1 && !acc.contains(xs[0]) {
            acc.push(xs[0])
        } else {
            acc
        };
        if xs[0].len() == 1 && !acc.contains(xs[0]) {
            assert forall|i: int, j: int| 0 <= i < j < next.len() implies next[i] != next[j] by {
                if j == acc.len() {
                    assert(acc.contains(acc[i]));
                }
            }
        }
        lemma_add_single_characters(next, xs.drop_first());
        let r = add_single_characters(acc, xs);
        assert forall|i: int| 0 <= i < acc.len() implies r.contains(#[trigger] acc[i]) by {
            assert(next.contains(acc[i])) by {
                assert(next[i] == acc[i]);
            }
        }
        assert forall|i: int| 0 <= i < xs.len() && (#[trigger] xs[i]).len() == 1 implies r.contains(xs[i]) by {
            if i == 0 {
                if acc.contains(xs[0]) {
                    let k = choose|k: int| 0 <= k < acc.len() && acc[k] == xs[0];
                    assert(next[k] == acc[k]);
                    assert(next.contains(acc[k]));
                } else {
                    assert(next[acc.len() as int] == xs[0]);
                    assert(next.contains(next[acc.len() as int]));
                }
            } else {
                assert(xs.drop_first()[i - 1] == xs[i]);
            }
        }
        assert forall|s: Seq<char>| #[trigger] r.contains(s) implies acc.contains(s) || (xs.contains(s) && s.len() == 1) by {
            if next.contains(s) && !acc.contains(s) {
                let k = choose|k: int| 0 <= k < next.len() && next[k] == s;
                assert(k == acc.len());
                assert(xs[0] == s);
            }
            if xs.drop_first().contains(s) {
                let k = choose|k: int| 0 <= k < xs.drop_first().len() && xs.drop_first()[k] == s;
                assert(xs[k + 1] == s);
            }
        }
    }
}

/// The trigger characters hold no string twice; they hold every word character,
/// `/`, `.` and `~`, and every one-character alias; and nothing else.
pub proof fn lemma_trigger_characters(aliases: Seq<Seq<char>>)
    ensures
        trigger_characters(aliases).no_duplicates(),
        forall|i: int| 0 <= i < word_characters().len() ==> trigger_characters(aliases).contains(seq![#[trigger] word_characters()[i]]),
        trigger_characters(aliases).contains(seq!['/']),
        trigger_characters(aliases).contains(seq!['.']),
        trigger_characters(aliases).contains(seq!['~']),
        forall|i: int| 0 <= i < aliases.len() && (#[trigger] aliases[i]).len() == 1 ==> trigger_characters(aliases).contains(aliases[i]),
        forall|s: Seq<char>| #[trigger] trigger_characters(aliases).contains(s) ==> s.len() == 1 && (
            singletons(word_characters()).contains(s) || s == seq!['/'] || s == seq!['.'] || s == seq!['~']
                || aliases.contains(s)),
{
    let base = singletons(word_characters()) + seq![seq!['/'], seq!['.'], seq!['~']];
    let xs = base + aliases;
    lemma_add_single_characters(Seq::empty(), xs);
    let w = word_characters();
    assert forall|i: int| 0 <= i < w.len() implies trigger_characters(aliases).contains(seq![#[trigger] w[i]]) by {
        assert(xs[i] == seq![w[i]]);
    }
    assert(xs[w.len() as int] == seq!['/']);
    assert(xs[w.len() as int + 1] == seq!['.']);
    assert(xs[w.len() as int + 2] == seq!['~']);
    assert forall|i: int| 0 <= i < aliases.len() && (#[trigger] aliases[i]).len() == 1 implies trigger_characters(
        aliases,
    ).contains(aliases[i]) by {
        assert(xs[base.len() + i] == aliases[i]);
    }
    assert forall|s: Seq<char>| #[trigger] trigger_characters(aliases).contains(s) implies s.len() == 1 && (
    singletons(word_characters()).contains(s) || s == seq!['/'] || s == seq!['.'] || s == seq!['~']
        || aliases.contains(s)) by {
        assert(xs.contains(s));
        let k = choose|k: int| 0 <= k < xs.len() && xs[k] == s;
        if k < w.len() {
            assert(singletons(w)[k] == s);
        } else if k >= base.len() {
            assert(aliases[k - base.len()] == s);
        }
    }
}

fn contains_string(v: &Vec<String>, s: &Vec<char>) -> (r: bool)
    ensures
        r == strings_view(v@).contains(s@),
{
    let ghost vs = strings_view(v@);
    let mut i: usize = 0;
    while i < v.len()
        invariant
            vs == strings_view(v@),
            i <= v@.len(),
            forall|j: int| 0 <= j < i ==> vs[j] != s@,
        decreases v@.len() - i,
    {
        if vec_eq(&to_chars(v[i].as_str()), s) {
            assert(vs[i as int] == s@);
            return true;
        }
        i = i + 1;
    }
    false
}

/// The characters that trigger completion (see [`trigger_characters`]); the list
/// holds no string twice.
pub fn completion_trigger_characters(alias_trigger_characters: &[String]) -> (r: Vec<String>)
    ensures
        strings_view(r@) == trigger_characters(strings_view(alias_trigger_characters@)),
        strings_view(r@).no_duplicates(),
{
    proof {
        reveal_strlit("/");
        reveal_strlit(".");
        reveal_strlit("~");
    }
    let mut candidates = word_trigger_characters();
    let ghost words = strings_view(candidates@);
    let slash = "/".to_string();
    let dot = ".".to_string();
    let tilde = "~".to_string();
    assert(slash@ =~= seq!['/']);
    assert(dot@ =~= seq!['.']);
    assert(tilde@ =~= seq!['~']);
    candidates.push(slash);
    candidates.push(dot);
    candidates.push(tilde);
    assert(strings_view(candidates@) =~= words + seq![seq!['/'], seq!['.'], seq!['~']]);
    assert(alias_trigger_characters@.take(0) =~= Seq::<String>::empty());
    assert(strings_view(alias_trigger_characters@.take(0)) =~= Seq::<Seq<char>>::empty());
    let mut i: usize = 0;
    while i < alias_trigger_characters.len()
        invariant
            i <= alias_trigger_characters@.len(),
            strings_view(candidates@) == singletons(word_characters()) + seq![seq!['/'], seq!['.'], seq!['~']]
                + strings_view(alias_trigger_characters@.take(i as int)),
        decreases alias_trigger_characters@.len() - i,
    {
        let ghost before = strings_view(candidates@);
        let alias = alias_trigger_characters[i].clone();
        candidates.push(alias);
        assert(strings_view(candidates@) =~= before.push(alias_trigger_characters@[i as int]@));
        assert(strings_view(alias_trigger_characters@.take(i as int + 1)) =~= strings_view(
            alias_trigger_characters@.take(i as int),
        ).push(alias_trigger_characters@[i as int]@));
        i = i + 1;
    }
    assert(alias_trigger_characters@.take(alias_trigger_characters@.len() as int) =~= alias_trigger_characters@);
    let ghost xs = strings_view(candidates@);
    let mut out: Vec<String> = Vec::new();
    let mut k: usize = 0;
    assert(xs.skip(0) =~= xs);
    assert(strings_view(out@) =~= Seq::<Seq<char>>::empty());
    while k < candidates.len()
        invariant
            xs == strings_view(candidates@),
            k <= candidates@.len(),
            add_single_characters(strings_view(out@), xs.skip(k as int)) == add_single_characters(Seq::empty(), xs),
        decreases candidates@.len() - k,
    {
        let c = to_chars(candidates[k].as_str());
        assert(xs[k as int] == c@);
        assert(xs.skip(k as int)[0] == c@);
        assert(xs.skip(k as int).drop_first() =~= xs.skip(k as int + 1));
        if c.len() == 1 && !contains_string(&out, &c) {
            let ghost before = strings_view(out@);
            out.push(candidates[k].clone());
            assert(strings_view(out@) =~= before.push(c@));
        }
        k = k + 1;
    }
    assert(xs.skip(k as int) =~= Seq::<Seq<char>>::empty());
    proof {
        lemma_add_single_characters(Seq::empty(), xs);
    }
    out
}

/// How the client says a completion request started.
#[derive(Clone, Copy, Debug, PartialEq, Eq, Structural)]
pub enum CompletionTriggerKind {
    Invoked,
    TriggerCharacter,
    TriggerForIncompleteCompletions,
}

/// How a completion request was triggered.
#[derive(Clone, Copy, Debug, PartialEq, Eq, Structural)]
pub struct CompletionTriggerState {
    pub allow_empty_token: bool,
    pub is_auto_trigger: bool,
    pub trigger_character: Option<char>,
}

/// A request without a context, or one the user invoked, is manual and may
/// complete an empty token; any other is automatic. The trigger character is the
/// first character of the one the client sent.
pub fn completion_trigger_state(trigger_kind: Option<CompletionTriggerKind>, trigger_character: Option<&str>) -> (r: CompletionTriggerState)
    ensures
        r.allow_empty_token == (trigger_kind is None || trigger_kind == Some(CompletionTriggerKind::Invoked)),
        r.is_auto_trigger == !r.allow_empty_token,
        r.trigger_character == match (trigger_kind, trigger_character) {
            (Some(_), Some(s)) => if s@.len() > 0 {
                Some(s@[0])
            } else {
                None::<char>
            },
            _ => None::<char>,
        },
{
    let allow_empty_token = match trigger_kind {
        None => true,
        Some(kind) => kind == CompletionTriggerKind::Invoked,
    };
    let character = match (trigger_kind, trigger_character) {
        (Some(_), Some(s)) => {
            let cs = to_chars(s);
            if cs.len() > 0 {
                Some(cs[0])
            } else {
                None
            }
        },
        _ => None,
    };
    CompletionTriggerState { allow_empty_token, is_auto_trigger: !allow_empty_token, trigger_character: character }
}

/// The paths among the workspace folders the client sent, in order (`None` for a
/// folder whose URI names no file path).
pub open spec fn folder_paths(folders: Seq<Option<String>>) -> Seq<Seq<char>>
    decreases folders.len(),
{
    if folders.len() == 0 {
        Seq::empty()
    } else {
        let rest = folder_paths(folders.drop_last());
        match folders.last() {
            Some(p) => rest.push(p@),
            None => rest,
        }
    }
}

/// The workspace roots of an initialize request: the paths of its workspace folders,
/// or, when there are none, the path of its root URI.
pub open spec fn initial_roots(folders: Option<Seq<Option<String>>>, root_path: Option<Seq<char>>) -> Seq<Seq<char>> {
    let from_folders = match folders {
        Some(fs) => folder_paths(fs),
        None => Seq::empty(),
    };
    if from_folders.len() > 0 {
        from_folders
    } else {
        match root_path {
            Some(p) => seq![p],
            None => Seq::empty(),
        }
    }
}

/// Executable form of [`initial_roots`]: `workspace_folders` holds each folder's file
/// path, where its URI has one; `root_path` is the root URI's file path.
pub fn roots_from_initialize_params(workspace_folders: Option<Vec<Option<String>>>, root_path: Option<String>) -> (r:
    Vec<String>)
    ensures
        strings_view(r@) == initial_roots(
            match workspace_folders {
                Some(v) => Some(v@),
                None => None,
            },
            match root_path {
                Some(p) => Some(p@),
                None => None,
            },
        ),
{
    let mut roots: Vec<String> = Vec::new();
    let folders = match workspace_folders {
        Some(v) => v,
        None => Vec::new(),
    };
    let ghost fs = folders@;
    let mut i: usize = 0;
    assert(fs.take(0) =~= Seq::<Option<String>>::empty());
    while i < folders.len()
        invariant
            fs == folders@,
            i <= fs.len(),
            strings_view(roots@) == folder_paths(fs.take(i as int)),
        decreases fs.len() - i,
    {
        proof {
            assert(fs.take(i as int + 1).drop_last() =~= fs.take(i as int));
            assert(fs.take(i as int + 1).last() == fs[i as int]);
        }
        match &folders[i] {
            Some(p) => {
                let ghost before = roots@;
                roots.push(p.clone());
                assert(strings_view(roots@) =~= strings_view(before).push(p@));
            },
            None => {},
        }
        i = i + 1;
    }
    assert(fs.take(fs.len() as int) =~= fs);
    assert(folder_paths(Seq::<Option<String>>::empty()) =~= Seq::<Seq<char>>::empty());
    if roots.len() == 0 {
        if let Some(p) = root_path {
            roots.push(p);
            assert(strings_view(roots@) =~= seq![p@]);
        }
    }
    roots
}

} // verus!
