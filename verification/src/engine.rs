//! Turning a completion context into completion items: directory entries of the
//! resolved bases, ranked and deduplicated, or the mapping keys the token begins.
use crate::candidates::{
    bucket, candidate_before, dedupe_candidates, is_dedup_of, is_kept_candidate, lemma_dedup_distinct, lowercase,
    match_quality, match_quality_spec, same_key, Candidate, MatchQuality,
};
use crate::resolver::{bases_view, parent_candidate, parent_candidate_dir, BaseView, ResolvedBase};
use crate::context::{key_extends_token, mapping_key_supports_prefix_completion, opt_string_view, CompletionContext};
use crate::glob::strings_view;
use crate::sorting::{is_stable_sort_of, stable_sort};
use crate::strs::{ends_with, starts_with, vec_ends_with, vec_eq};
use crate::chars::utf8_len;
use crate::context::{keys_view, outside_context, ContextView, OutsideStringsConfig};
use crate::query::{doc_view, extract_completion_context, extracted_context, outside_view, snapshot_language};
use crate::resolver::{resolve_bases, resolved_bases, RootsView, WorkspaceRoots};
use crate::syntax::SyntaxSnapshot;
use crate::text::Position;
use crate::chars::{append_str, string_from_chars, to_chars};
use crate::documentation::{completion_item_data, fallback_completion_documentation, fallback_text, CompletionItemData, CompletionItemPreviewKind};
use crate::settings::CompiledSettings;
use crate::text::Range;
use crate::text::{position_index, positions_fit};
use vstd::prelude::*;

verus! {

/// Whether an item names a folder or a file.
#[derive(Clone, Copy, Debug, PartialEq, Eq, Structural)]
pub enum CompletionItemKind {
    Folder,
    File,
}

/// An editor command attached to an item.
#[derive(Clone, Debug)]
pub struct Command {
    pub title: String,
    pub command: String,
}

/// The text that replaces a range when an item is accepted.
#[derive(Clone, Debug)]
pub struct TextEdit {
    pub range: Range,
    pub new_text: String,
}

/// A completion item. Its label description and detail both hold the annotation
/// (`Directory` or `File`); its documentation is Markdown; its text is plain.
#[derive(Clone, Debug)]
pub struct CompletionItem {
    pub label: String,
    pub kind: CompletionItemKind,
    pub sort_text: String,
    pub filter_text: String,
    pub label_description: String,
    pub detail: String,
    pub documentation: String,
    pub data: Option<CompletionItemData>,
    pub text_edit: TextEdit,
    pub command: Option<Command>,
}

pub struct ItemView {
    pub label: Seq<char>,
    pub kind: CompletionItemKind,
    pub sort_text: Seq<char>,
    pub filter_text: Seq<char>,
    pub label_description: Seq<char>,
    pub detail: Seq<char>,
    pub documentation: Seq<char>,
    /// Path, kind, annotation and name.
    pub data: Option<(Seq<char>, CompletionItemPreviewKind, Seq<char>, Seq<char>)>,
    pub range: Range,
    pub new_text: Seq<char>,
    /// Title and command.
    pub command: Option<(Seq<char>, Seq<char>)>,
}

impl View for CompletionItem {
    type V = ItemView;

    open spec fn view(&self) -> ItemView {
        ItemView {
            label: self.label@,
            kind: self.kind,
            sort_text: self.sort_text@,
            filter_text: self.filter_text@,
            label_description: self.label_description@,
            detail: self.detail@,
            documentation: self.documentation@,
            data: match self.data {
                Some(d) => Some((d.path@, d.kind, d.annotation@, d.name@)),
                None => None,
            },
            range: self.text_edit.range,
            new_text: self.text_edit.new_text@,
            command: match self.command {
                Some(c) => Some((c.title@, c.command@)),
                None => None,
            },
        }
    }
}

pub open spec fn items_view(v: Seq<CompletionItem>) -> Seq<ItemView> {
    v.map_values(|i: CompletionItem| i@)
}

pub open spec fn annotation_text(is_dir: bool) -> Seq<char> {
    if is_dir {
        "Directory"@
    } else {
        "File"@
    }
}

pub open spec fn bucket_digit(b: int) -> char {
    if b == 0 {
        '0'
    } else if b == 1 {
        '1'
    } else if b == 2 {
        '2'
    } else if b == 3 {
        '3'
    } else {
        '4'
    }
}

/// The item for a candidate. A directory's label ends with `/`; the inserted text is
/// the insert prefix, the name, and for a directory the configured suffix; a
/// directory item reopens completion when the suffix holds a slash.
pub open spec fn item_for(c: Candidate, range: Range, suffix: Seq<char>, retrigger: bool) -> ItemView {
    let annotation = annotation_text(c.is_dir);
    ItemView {
        label: if c.is_dir {
            c.name@ + seq!['/']
        } else {
            c.name@
        },
        kind: if c.is_dir {
            CompletionItemKind::Folder
        } else {
            CompletionItemKind::File
        },
        sort_text: seq![bucket_digit(c.rank())] + c.sort_name@,
        filter_text: c.name@,
        label_description: annotation,
        detail: annotation,
        documentation: fallback_text(annotation, c.name@),
        data: match c.path {
            Some(p) => Some(
                (
                    p@,
                    if c.is_dir {
                        CompletionItemPreviewKind::Directory
                    } else {
                        CompletionItemPreviewKind::File
                    },
                    annotation,
                    c.name@,
                ),
            ),
            None => None,
        },
        range,
        new_text: if c.is_dir {
            c.insert_prefix@ + c.name@ + suffix
        } else {
            c.insert_prefix@ + c.name@
        },
        command: if c.is_dir && retrigger {
            Some(("Trigger path completions"@, "editor::ShowCompletions"@))
        } else {
            None
        },
    }
}

/// The item for a candidate under the given settings (see [`item_for`]).
pub fn into_completion_item(candidate: Candidate, range: Range, settings: &CompiledSettings) -> (r: CompletionItem)
    ensures
        r@ == item_for(
            candidate,
            range,
            settings.raw_settings().directory_suffix@,
            settings.raw_settings().directory_suffix@.contains('/'),
        ),
{
    let bucket = candidate.sort_bucket();
    let is_dir = candidate.is_dir;
    let annotation: &str = if is_dir {
        "Directory"
    } else {
        "File"
    };
    let digit = if bucket == 0 {
        '0'
    } else if bucket == 1 {
        '1'
    } else if bucket == 2 {
        '2'
    } else if bucket == 3 {
        '3'
    } else {
        '4'
    };
    let mut sort_text: Vec<char> = Vec::new();
    sort_text.push(digit);
    append_str(&mut sort_text, candidate.sort_name.as_str());
    let mut new_text: Vec<char> = Vec::new();
    append_str(&mut new_text, candidate.insert_prefix.as_str());
    append_str(&mut new_text, candidate.name.as_str());
    if is_dir {
        append_str(&mut new_text, settings.directory_suffix());
    }
    let mut label: Vec<char> = Vec::new();
    append_str(&mut label, candidate.name.as_str());
    if is_dir {
        label.push('/');
    }
    let data = match &candidate.path {
        Some(p) => Some(completion_item_data(p.as_str(), is_dir, annotation, candidate.name.as_str())),
        None => None,
    };
    let command = if is_dir && settings.should_retrigger_after_directory_completion() {
        Some(Command { title: "Trigger path completions".to_string(), command: "editor::ShowCompletions".to_string() })
    } else {
        None
    };
    let item = CompletionItem {
        label: string_from_chars(label.as_slice()),
        kind: if is_dir {
            CompletionItemKind::Folder
        } else {
            CompletionItemKind::File
        },
        sort_text: string_from_chars(sort_text.as_slice()),
        filter_text: candidate.name.clone(),
        label_description: annotation.to_string(),
        detail: annotation.to_string(),
        documentation: fallback_completion_documentation(annotation, candidate.name.as_str()),
        data,
        text_edit: TextEdit { range, new_text: string_from_chars(new_text.as_slice()) },
        command,
    };
    proof {
        assert(sort_text@ =~= seq![bucket_digit(candidate.rank())] + candidate.sort_name@);
        if is_dir {
            assert(label@ =~= candidate.name@ + seq!['/']);
        } else {
            assert(label@ =~= candidate.name@);
        }
    }
    assert(item@ == item_for(
        candidate,
        range,
        settings.raw_settings().directory_suffix@,
        settings.raw_settings().directory_suffix@.contains('/'),
    ));
    item
}

/// The most items a response holds.
pub const MAX_ITEMS: usize = 200;

/// Items for the first [`MAX_ITEMS`] candidates, in order.
pub fn items_for_candidates(candidates: Vec<Candidate>, range: Range, settings: &CompiledSettings) -> (r: Vec<CompletionItem>)
    ensures
        items_view(r@) == candidates@.take(if candidates@.len() < MAX_ITEMS {
            candidates@.len() as int
        } else {
            MAX_ITEMS as int
        }).map_values(
            |c: Candidate|
                item_for(
                    c,
                    range,
                    settings.raw_settings().directory_suffix@,
                    settings.raw_settings().directory_suffix@.contains('/'),
                ),
        ),
{
    let ghost input = candidates@;
    let ghost n = if input.len() < MAX_ITEMS {
        input.len() as int
    } else {
        MAX_ITEMS as int
    };
    let ghost suffix = settings.raw_settings().directory_suffix@;
    let mut rest = candidates;
    let mut out: Vec<CompletionItem> = Vec::new();
    let mut i: usize = 0;
    while i < MAX_ITEMS && rest.len() > 0
        invariant
            i <= MAX_ITEMS,
            i <= input.len(),
            rest@ == input.skip(i as int),
            out@.len() == i,
            suffix == settings.raw_settings().directory_suffix@,
            forall|j: int| 0 <= j < i ==> (#[trigger] out@[j])@ == item_for(
                input[j],
                range,
                suffix,
                suffix.contains('/'),
            ),
        decreases MAX_ITEMS - i,
    {
        let c = rest.remove(0);
        assert(c == input[i as int]);
        out.push(into_completion_item(c, range, settings));
        assert(rest@ =~= input.skip(i as int + 1));
        i = i + 1;
    }
    assert(i == n);
    assert(items_view(out@) =~= input.take(n).map_values(|c: Candidate| item_for(c, range, suffix, suffix.contains('/'))));
    out
}

/// The fields a candidate is made from.
pub struct CandidateSpec {
    pub name: Seq<char>,
    pub is_dir: bool,
    pub path: Option<Seq<char>>,
    pub insert_prefix: Seq<char>,
    pub quality: MatchQuality,
}

/// `c` is the candidate made from `s` (its sort name being the lower-case name).
pub open spec fn is_candidate(c: Candidate, s: CandidateSpec) -> bool {
    &&& c.name@ == s.name
    &&& c.sort_name@ == lowercase(s.name)
    &&& c.is_dir == s.is_dir
    &&& opt_string_view(c.path) == s.path
    &&& c.insert_prefix@ == s.insert_prefix
    &&& c.match_quality == s.quality
}

pub open spec fn realizes(cs: Seq<Candidate>, specs: Seq<CandidateSpec>) -> bool {
    cs.len() == specs.len() && forall|i: int| 0 <= i < cs.len() ==> is_candidate(#[trigger] cs[i], specs[i])
}

/// The items of a ranked list: the first [`MAX_ITEMS`] candidates.
pub open spec fn items_of(sorted: Seq<Candidate>, range: Range, settings: CompiledSettings) -> Seq<ItemView> {
    let suffix = settings.raw_settings().directory_suffix@;
    sorted.take(if sorted.len() < MAX_ITEMS {
        sorted.len() as int
    } else {
        MAX_ITEMS as int
    }).map_values(|c: Candidate| item_for(c, range, suffix, suffix.contains('/')))
}

/// The mapping keys the token is a proper beginning of, as directory candidates.
pub open spec fn mapping_candidate_specs(keys: Seq<Seq<char>>, token: Seq<char>) -> Seq<CandidateSpec>
    decreases keys.len(),
{
    if keys.len() == 0 {
        Seq::empty()
    } else {
        let rest = mapping_candidate_specs(keys.drop_last(), token);
        let key = keys.last();
        if key != token && key_extends_token(key, token) {
            rest.push(
                CandidateSpec {
                    name: key,
                    is_dir: true,
                    path: None,
                    insert_prefix: Seq::empty(),
                    quality: MatchQuality::Prefix,
                },
            )
        } else {
            rest
        }
    }
}

/// `items` are the ranked items of the mapping keys the token begins.
pub open spec fn mapping_items_ok(
    items: Seq<ItemView>,
    keys: Seq<Seq<char>>,
    token: Seq<char>,
    range: Range,
    settings: CompiledSettings,
) -> bool {
    exists|cs: Seq<Candidate>, sorted: Seq<Candidate>, perm: Seq<int>|
        realizes(cs, mapping_candidate_specs(keys, token)) && #[trigger] is_stable_sort_of(sorted, cs, perm)
            && items == items_of(sorted, range, settings)
}

proof fn lemma_items_of(cs: Seq<Candidate>, sorted: Seq<Candidate>, perm: Seq<int>, range: Range, settings: CompiledSettings)
    requires
        is_stable_sort_of(sorted, cs, perm),
    ensures
        items_of(sorted, range, settings).len() == 0 <==> cs.len() == 0,
{
}

/// Items for the mapping keys the context's token is a proper beginning of,
/// ranked like directory entries.
pub fn mapping_prefix_items(context: &CompletionContext, mapping_keys: &[String], settings: &CompiledSettings) -> (r: Vec<CompletionItem>)
    ensures
        mapping_items_ok(items_view(r@), strings_view(mapping_keys@), context@.raw_token, context@.replacement_range, *settings),
        r@.len() == 0 <==> mapping_candidate_specs(strings_view(mapping_keys@), context@.raw_token).len() == 0,
{
    let token = to_chars(context.raw_token.as_str());
    let ghost keys = strings_view(mapping_keys@);
    let mut cs: Vec<Candidate> = Vec::new();
    let mut i: usize = 0;
    while i < mapping_keys.len()
        invariant
            keys == strings_view(mapping_keys@),
            token@ == context@.raw_token,
            i <= mapping_keys@.len(),
            realizes(cs@, mapping_candidate_specs(keys.take(i as int), token@)),
        decreases mapping_keys@.len() - i,
    {
        let key = &mapping_keys[i];
        let kc = to_chars(key.as_str());
        proof {
            assert(keys.take(i as int + 1).drop_last() =~= keys.take(i as int));
            assert(keys.take(i as int + 1).last() == key@);
        }
        if !vec_eq(&kc, &token) && mapping_key_supports_prefix_completion(&kc, &token) {
            let c = Candidate::new(key.clone(), true, None, String::new(), MatchQuality::Prefix);
            cs.push(c);
        }
        i = i + 1;
    }
    assert(keys.take(keys.len() as int) =~= keys);
    let ghost unsorted = cs@;
    let sorted = stable_sort(cs);
    let ghost perm = choose|perm: Seq<int>| is_stable_sort_of(sorted@, unsorted, perm);
    let ghost sorted_view = sorted@;
    let items = items_for_candidates(sorted, context.replacement_range, settings);
    proof {
        lemma_items_of(unsorted, sorted_view, perm, context@.replacement_range, *settings);
        assert(items_view(items@) == items_of(sorted_view, context@.replacement_range, *settings));
        assert(is_stable_sort_of(sorted_view, unsorted, perm));
    }
    items
}

/// An entry of a listed directory: its file name, whether it is a directory, and
/// its path.
pub struct DirectoryEntry {
    pub name: String,
    pub is_dir: bool,
    pub path: String,
}

/// What was found on disk for a base: whether its target is a file, and the
/// entries of its target directory (`None` when it could not be read).
pub struct BaseListing {
    pub is_file: bool,
    pub entries: Option<Vec<DirectoryEntry>>,
}

/// The directory entries that complete a base's prefix: non-empty names, hidden
/// ones only when the prefix starts with a dot, and only names that match.
pub open spec fn entry_specs(entries: Seq<DirectoryEntry>, base: BaseView) -> Seq<CandidateSpec>
    decreases entries.len(),
{
    if entries.len() == 0 {
        Seq::empty()
    } else {
        let rest = entry_specs(entries.drop_last(), base);
        let e = entries.last();
        let show_hidden = base.prefix.len() > 0 && base.prefix[0] == '.';
        if e.name@.len() == 0 || (e.name@[0] == '.' && !show_hidden) {
            rest
        } else {
            match match_quality_spec(e.name@, base.prefix) {
                Some(q) => rest.push(
                    CandidateSpec {
                        name: e.name@,
                        is_dir: e.is_dir,
                        path: Some(e.path@),
                        insert_prefix: base.insert_prefix,
                        quality: q,
                    },
                ),
                None => rest,
            }
        }
    }
}

/// The candidates of one base: the synthetic `..` (unless disabled) when the prefix
/// is `.` or `..` and there is a parent to offer, then the matching entries.
pub open spec fn base_candidate_specs(base: BaseView, entries: Option<Seq<DirectoryEntry>>, disable_up: bool) -> Seq<CandidateSpec> {
    let parent = if !disable_up && (base.prefix == seq!['.'] || base.prefix == seq!['.', '.']) && parent_candidate(base) is Some {
        seq![
            CandidateSpec {
                name: seq!['.', '.'],
                is_dir: true,
                path: parent_candidate(base),
                insert_prefix: base.insert_prefix,
                quality: MatchQuality::Prefix,
            },
        ]
    } else {
        Seq::empty()
    };
    parent + match entries {
        Some(es) => entry_specs(es, base),
        None => Seq::empty(),
    }
}

pub open spec fn listing_entries(l: BaseListing) -> Option<Seq<DirectoryEntry>> {
    match l.entries {
        Some(es) => Some(es@),
        None => None,
    }
}

/// The candidates of all bases whose target is not a file, base by base.
pub open spec fn all_candidate_specs(bases: Seq<BaseView>, listings: Seq<BaseListing>, disable_up: bool) -> Seq<CandidateSpec>
    decreases bases.len(),
{
    if bases.len() == 0 || listings.len() == 0 {
        Seq::empty()
    } else {
        let rest = all_candidate_specs(bases.drop_last(), listings.drop_last(), disable_up);
        if listings.last().is_file {
            rest
        } else {
            rest + base_candidate_specs(bases.last(), listing_entries(listings.last()), disable_up)
        }
    }
}

fn candidates_for_base(base: &ResolvedBase, listing: &BaseListing, settings: &CompiledSettings, out: &mut Vec<Candidate>)
    ensures
        forall|specs: Seq<CandidateSpec>|
            realizes(old(out)@, specs) ==> realizes(
                final(out)@,
                specs + base_candidate_specs(base@, listing_entries(*listing), settings.raw_settings().disable_up_one_folder),
            ),
{
    let ghost start = out@;
    let ghost b = base@;
    let prefix = to_chars(base.prefix.as_str());
    let show_hidden = prefix.len() > 0 && prefix[0] == '.';
    let is_dot = prefix.len() == 1 && prefix[0] == '.';
    let is_dot_dot = prefix.len() == 2 && prefix[0] == '.' && prefix[1] == '.';
    proof {
        assert(is_dot == (b.prefix == seq!['.'])) by {
            if b.prefix == seq!['.'] {
                assert(prefix@[0] == '.');
            }
            if is_dot {
                assert(prefix@ =~= seq!['.']);
            }
        }
        assert(is_dot_dot == (b.prefix == seq!['.', '.'])) by {
            if b.prefix == seq!['.', '.'] {
                assert(prefix@[0] == '.' && prefix@[1] == '.');
            }
            if is_dot_dot {
                assert(prefix@ =~= seq!['.', '.']);
            }
        }
    }
    let mut parent_specs: Ghost<Seq<CandidateSpec>> = Ghost(Seq::empty());
    if !settings.disable_up_one_folder() && (is_dot || is_dot_dot) {
        match parent_candidate_dir(base) {
            Some(parent) => {
                let name = "..".to_string();
                proof {
                    reveal_strlit("..");
                }
                assert(name@ =~= seq!['.', '.']);
                let c = Candidate::new(name, true, Some(parent), base.insert_prefix.clone(), MatchQuality::Prefix);
                out.push(c);
                proof {
                    parent_specs@ = seq![
                        CandidateSpec {
                            name: seq!['.', '.'],
                            is_dir: true,
                            path: parent_candidate(b),
                            insert_prefix: b.insert_prefix,
                            quality: MatchQuality::Prefix,
                        },
                    ];
                }
            },
            None => {},
        }
    }
    let ghost mid = out@;
    assert(mid.len() == start.len() + parent_specs@.len());
    assert(forall|k: int| 0 <= k < start.len() ==> mid[k] == start[k]);
    assert(parent_specs@.len() == 1 ==> is_candidate(mid[start.len() as int], parent_specs@[0]));
    assert(parent_specs@ == if !settings.raw_settings().disable_up_one_folder && (b.prefix == seq!['.'] || b.prefix == seq!['.', '.']) && parent_candidate(b) is Some {
        seq![
            CandidateSpec {
                name: seq!['.', '.'],
                is_dir: true,
                path: parent_candidate(b),
                insert_prefix: b.insert_prefix,
                quality: MatchQuality::Prefix,
            },
        ]
    } else {
        Seq::<CandidateSpec>::empty()
    });
    let mut entry_part: Ghost<Seq<CandidateSpec>> = Ghost(Seq::empty());
    match &listing.entries {
        Some(entries) => {
            let mut i: usize = 0;
            while i < entries.len()
                invariant
                    b == base@,
                    prefix@ == b.prefix,
                    show_hidden == (b.prefix.len() > 0 && b.prefix[0] == '.'),
                    i <= entries@.len(),
                    entry_part@ == entry_specs(entries@.take(i as int), b),
                    out@.len() == mid.len() + entry_part@.len(),
                    forall|k: int| 0 <= k < mid.len() ==> out@[k] == mid[k],
                    forall|k: int| 0 <= k < entry_part@.len() ==> is_candidate(#[trigger] out@[mid.len() + k], entry_part@[k]),
                decreases entries@.len() - i,
            {
                let e = &entries[i];
                let name = to_chars(e.name.as_str());
                proof {
                    assert(entries@.take(i as int + 1).drop_last() =~= entries@.take(i as int));
                    assert(entries@.take(i as int + 1).last() == *e);
                }
                if name.len() > 0 && !(name[0] == '.' && !show_hidden) {
                    match match_quality(&name, &prefix) {
                        Some(q) => {
                            let c = Candidate::new(e.name.clone(), e.is_dir, Some(e.path.clone()), base.insert_prefix.clone(), q);
                            let ghost before = out@;
                            out.push(c);
                            proof {
                                let spec = CandidateSpec {
                                    name: e.name@,
                                    is_dir: e.is_dir,
                                    path: Some(e.path@),
                                    insert_prefix: b.insert_prefix,
                                    quality: q,
                                };
                                entry_part@ = entry_part@.push(spec);
                                assert forall|k: int| 0 <= k < entry_part@.len() implies is_candidate(
                                    #[trigger] out@[mid.len() + k],
                                    entry_part@[k],
                                ) by {
                                    if k < entry_part@.len() - 1 {
                                        assert(out@[mid.len() + k] == before[mid.len() + k]);
                                    }
                                }
                            }
                        },
                        None => {},
                    }
                }
                i = i + 1;
            }
            assert(entries@.take(entries@.len() as int) =~= entries@);
        },
        None => {},
    }
    proof {
        assert forall|specs: Seq<CandidateSpec>| realizes(start, specs) implies realizes(
            out@,
            specs + base_candidate_specs(b, listing_entries(*listing), settings.raw_settings().disable_up_one_folder),
        ) by {
            let all = specs + base_candidate_specs(b, listing_entries(*listing), settings.raw_settings().disable_up_one_folder);
            assert(all =~= specs + parent_specs@ + entry_part@);
            assert forall|k: int| 0 <= k < out@.len() implies is_candidate(#[trigger] out@[k], all[k]) by {
                if k < start.len() {
                    assert(out@[k] == start[k]);
                } else if k < mid.len() {
                    assert(out@[k] == mid[k]);
                } else {
                    assert(out@[mid.len() + (k - mid.len())] == out@[k]);
                }
            }
        }
    }
}

/// Some base's target is a file.
pub open spec fn some_base_is_file(listings: Seq<BaseListing>) -> bool {
    exists|i: int| 0 <= i < listings.len() && (#[trigger] listings[i]).is_file
}

/// The candidates of `specs`, one kept per completed text, ranked; their items are `items`.
pub open spec fn ranked_items(items: Seq<ItemView>, specs: Seq<CandidateSpec>, range: Range, settings: CompiledSettings) -> bool {
    exists|cs: Seq<Candidate>, d: Seq<Candidate>, sorted: Seq<Candidate>, perm: Seq<int>|
        #[trigger] realizes(cs, specs) && #[trigger] is_dedup_of(d, cs) && #[trigger] is_stable_sort_of(
            sorted,
            d,
            perm,
        ) && items == items_of(sorted, range, settings)
}

/// Items for the entries found under the bases: the candidates of every base whose
/// target is not a file, one per completed text, ranked, at most [`MAX_ITEMS`];
/// `None` when that leaves nothing and some base's target is a file (the token
/// descends into a file).
pub fn completion_items_for_bases(
    bases: &Vec<ResolvedBase>,
    listings: &Vec<BaseListing>,
    range: Range,
    settings: &CompiledSettings,
) -> (r: Option<Vec<CompletionItem>>)
    requires
        bases@.len() == listings@.len(),
    ensures
        ({
            let specs = all_candidate_specs(bases_view(bases@), listings@, settings.raw_settings().disable_up_one_folder);
            match r {
                Some(items) => ranked_items(items_view(items@), specs, range, *settings) && !(items@.len() == 0
                    && some_base_is_file(listings@)),
                None => some_base_is_file(listings@) && exists|items: Seq<ItemView>|
                    items.len() == 0 && #[trigger] ranked_items(items, specs, range, *settings),
            }
        }),
{
    let ghost disable_up = settings.raw_settings().disable_up_one_folder;
    let ghost bv = bases_view(bases@);
    let mut all: Vec<Candidate> = Vec::new();
    let mut has_file = false;
    let mut i: usize = 0;
    while i < bases.len()
        invariant
            bases@.len() == listings@.len(),
            bv == bases_view(bases@),
            disable_up == settings.raw_settings().disable_up_one_folder,
            i <= bases@.len(),
            realizes(all@, all_candidate_specs(bv.take(i as int), listings@.take(i as int), disable_up)),
            has_file == some_base_is_file(listings@.take(i as int)),
        decreases bases@.len() - i,
    {
        proof {
            assert(bv.take(i as int + 1).drop_last() =~= bv.take(i as int));
            assert(listings@.take(i as int + 1).drop_last() =~= listings@.take(i as int));
            assert(bv.take(i as int + 1).last() == bases@[i as int]@);
            assert(listings@.take(i as int + 1).last() == listings@[i as int]);
        }
        let listing = &listings[i];
        if listing.is_file {
            has_file = true;
            assert(listings@.take(i as int + 1)[i as int].is_file);
        } else {
            candidates_for_base(&bases[i], listing, settings, &mut all);
        }
        proof {
            let next = listings@.take(i as int + 1);
            if some_base_is_file(next) {
                let k = choose|k: int| 0 <= k < next.len() && (#[trigger] next[k]).is_file;
                if k < i {
                    assert(listings@.take(i as int)[k] == next[k]);
                }
            }
            if some_base_is_file(listings@.take(i as int)) {
                let k = choose|k: int| 0 <= k < i && (#[trigger] listings@.take(i as int)[k]).is_file;
                assert(next[k] == listings@.take(i as int)[k]);
            }
        }
        i = i + 1;
    }
    proof {
        assert(bv.take(bv.len() as int) =~= bv);
        assert(listings@.take(listings@.len() as int) =~= listings@);
    }
    let ghost cs = all@;
    let deduped = dedupe_candidates(all);
    let ghost d = deduped@;
    let sorted = stable_sort(deduped);
    let ghost perm = choose|perm: Seq<int>| is_stable_sort_of(sorted@, d, perm);
    let ghost sv = sorted@;
    let items = items_for_candidates(sorted, range, settings);
    proof {
        assert(items_view(items@) == items_of(sv, range, *settings));
        assert(is_stable_sort_of(sv, d, perm));
        assert(realizes(cs, all_candidate_specs(bv, listings@, disable_up)));
        assert(ranked_items(items_view(items@), all_candidate_specs(bv, listings@, disable_up), range, *settings));
    }
    if items.len() == 0 && has_file {
        return None;
    }
    Some(items)
}

/// Trigger characters that continue a path.
pub open spec fn is_separator_trigger(c: Option<char>) -> bool {
    c == Some('/') || c == Some('.') || c == Some('~')
}

/// The token starts at an explicit root (`~`, `~/`, `/`, `./`, `../`) or is a
/// mapping key.
pub open spec fn explicit_path_root(token: Seq<char>, keys: Seq<Seq<char>>) -> bool {
    ||| token == seq!['~']
    ||| starts_with(token, seq!['~', '/'])
    ||| starts_with(token, seq!['/'])
    ||| starts_with(token, seq!['.', '/'])
    ||| starts_with(token, seq!['.', '.', '/'])
    ||| keys.contains(token)
}

/// The token begins some mapping key.
pub open spec fn alias_prefix(token: Seq<char>, keys: Seq<Seq<char>>) -> bool {
    exists|k: int| 0 <= k < keys.len() && key_extends_token(#[trigger] keys[k], token)
}

/// An automatic request is held back while the typed name is shorter than the
/// configured minimum, unless a separator was typed or the token is an explicit
/// root or an alias beginning.
pub open spec fn suppressed(
    is_manual_trigger: bool,
    trigger_character: Option<char>,
    ctx: ContextView,
    keys: Seq<Seq<char>>,
    min_length: usize,
) -> bool {
    &&& !is_manual_trigger
    &&& !(is_separator_trigger(trigger_character) || explicit_path_root(ctx.raw_token, keys) || alias_prefix(
        ctx.raw_token,
        keys,
    ))
    &&& ctx.prefix.len() < min_length
}

/// Executable form of [`suppressed`].
pub fn should_suppress_for_min_auto_trigger(
    is_manual_trigger: bool,
    trigger_character: Option<char>,
    context: &CompletionContext,
    mapping_keys: &[String],
    min_length: usize,
) -> (r: bool)
    ensures
        r == suppressed(is_manual_trigger, trigger_character, context@, strings_view(mapping_keys@), min_length),
{
    if is_manual_trigger {
        return false;
    }
    let separator = match trigger_character {
        Some(c) => c == '/' || c == '.' || c == '~',
        None => false,
    };
    if separator {
        return false;
    }
    let t = to_chars(context.raw_token.as_str());
    let ghost tv = t@;
    let ghost keys = strings_view(mapping_keys@);
    let explicit = (t.len() == 1 && t[0] == '~') || (t.len() >= 2 && t[0] == '~' && t[1] == '/') || (t.len() >= 1
        && t[0] == '/') || (t.len() >= 2 && t[0] == '.' && t[1] == '/') || (t.len() >= 3 && t[0] == '.' && t[1]
        == '.' && t[2] == '/');
    proof {
        let r = tv == seq!['~'] || starts_with(tv, seq!['~', '/']) || starts_with(tv, seq!['/']) || starts_with(
            tv,
            seq!['.', '/'],
        ) || starts_with(tv, seq!['.', '.', '/']);
        if explicit {
            if t.len() == 1 && t[0] == '~' {
                assert(tv =~= seq!['~']);
            } else if t.len() >= 2 && t[0] == '~' && t[1] == '/' {
                assert(tv.take(2) =~= seq!['~', '/']);
            } else if t.len() >= 1 && t[0] == '/' {
                assert(tv.take(1) =~= seq!['/']);
            } else if t.len() >= 2 && t[0] == '.' && t[1] == '/' {
                assert(tv.take(2) =~= seq!['.', '/']);
            } else {
                assert(tv.take(3) =~= seq!['.', '.', '/']);
            }
        } else {
            if tv == seq!['~'] {
                assert(tv[0] == '~');
            }
            if starts_with(tv, seq!['~', '/']) {
                assert(tv.take(2)[0] == '~' && tv.take(2)[1] == '/');
            }
            if starts_with(tv, seq!['/']) {
                assert(tv.take(1)[0] == '/');
            }
            if starts_with(tv, seq!['.', '/']) {
                assert(tv.take(2)[0] == '.' && tv.take(2)[1] == '/');
            }
            if starts_with(tv, seq!['.', '.', '/']) {
                assert(tv.take(3)[0] == '.' && tv.take(3)[1] == '.' && tv.take(3)[2] == '/');
            }
        }
        assert(explicit == r);
    }
    if explicit {
        return false;
    }
    let mut i: usize = 0;
    while i < mapping_keys.len()
        invariant
            keys == strings_view(mapping_keys@),
            tv == t@,
            tv == context@.raw_token,
            i <= mapping_keys@.len(),
            forall|k: int| 0 <= k < i ==> keys[k] != tv && !key_extends_token(#[trigger] keys[k], tv),
        decreases mapping_keys@.len() - i,
    {
        let key = to_chars(mapping_keys[i].as_str());
        assert(keys[i as int] == key@);
        if vec_eq(&key, &t) || mapping_key_supports_prefix_completion(&key, &t) {
            return false;
        }
        i = i + 1;
    }
    proof {
        if keys.contains(tv) {
            let k = choose|k: int| 0 <= k < keys.len() && keys[k] == tv;
            assert(keys[k] != tv);
        }
    }
    let count = to_chars(context.prefix.as_str()).len();
    count < min_length
}

/// The line before the token ends with one of the ignored prefixes.
pub open spec fn has_ignored_prefix(line_prefix: Seq<char>, prefixes: Seq<Seq<char>>) -> bool {
    exists|i: int| 0 <= i < prefixes.len() && ends_with(line_prefix, #[trigger] prefixes[i])
}

fn ends_with_ignored_prefix(line_prefix: &String, prefixes: &[String]) -> (r: bool)
    ensures
        r == has_ignored_prefix(line_prefix@, strings_view(prefixes@)),
{
    let line = to_chars(line_prefix.as_str());
    let ghost ps = strings_view(prefixes@);
    let mut i: usize = 0;
    while i < prefixes.len()
        invariant
            ps == strings_view(prefixes@),
            line@ == line_prefix@,
            i <= prefixes@.len(),
            forall|k: int| 0 <= k < i ==> !ends_with(line_prefix@, #[trigger] ps[k]),
        decreases prefixes@.len() - i,
    {
        let p = to_chars(prefixes[i].as_str());
        assert(ps[i as int] == p@);
        if vec_ends_with(&line, &p) {
            return true;
        }
        i = i + 1;
    }
    false
}

/// What completing a request takes next: an answer now (`None` for no answer), or
/// listing the directories of the bases and ranking their entries
/// ([`completion_items_for_bases`]).
pub enum CompletionPlan {
    Respond(Option<Vec<CompletionItem>>),
    ListDirectories { bases: Vec<ResolvedBase>, range: Range },
}

/// A completion request; `home` is the user's home directory, when known.
pub struct CompletionRequest<'a> {
    pub text: &'a str,
    pub position: Position,
    pub syntax: Option<&'a SyntaxSnapshot>,
    pub document_path: Option<&'a String>,
    pub workspace_roots: &'a WorkspaceRoots,
    pub is_manual_trigger: bool,
    pub trigger_character: Option<char>,
    pub settings: &'a CompiledSettings,
    pub home: Option<&'a String>,
}

/// `r` is the plan for the context `ctx`: an empty answer when the line before the
/// token ends with an ignored prefix; no answer when an automatic request is held
/// back; the mapping keys the token begins, when there are any; else the bases.
pub open spec fn plan_for(
    r: CompletionPlan,
    ctx: ContextView,
    is_manual_trigger: bool,
    trigger_character: Option<char>,
    roots: RootsView,
    settings: CompiledSettings,
    home: Option<Seq<char>>,
) -> bool {
    let keys = settings.mapping_keys();
    if has_ignored_prefix(ctx.line_prefix, strings_view(settings.raw_settings().ignored_prefixes@)) {
        r matches CompletionPlan::Respond(Some(items)) && items@.len() == 0
    } else if suppressed(
        is_manual_trigger,
        trigger_character,
        ctx,
        keys,
        settings.raw_settings().min_auto_trigger_word_length,
    ) {
        r matches CompletionPlan::Respond(None)
    } else if mapping_candidate_specs(keys, ctx.raw_token).len() > 0 {
        r matches CompletionPlan::Respond(Some(items)) && mapping_items_ok(
            items_view(items@),
            keys,
            ctx.raw_token,
            ctx.replacement_range,
            settings,
        )
    } else {
        r matches CompletionPlan::ListDirectories { bases, range } && bases_view(bases@) == resolved_bases(
            ctx,
            roots,
            settings,
            home,
        ) && range == ctx.replacement_range
    }
}

/// The lexical fallback a request's settings configure.
pub open spec fn settings_fallback(settings: CompiledSettings) -> Option<(Seq<char>, Seq<Seq<char>>)> {
    if settings.raw_settings().trigger_outside_strings {
        Some((settings.raw_settings().path_separators@, settings.mapping_keys()))
    } else {
        None
    }
}

/// On a document with no syntax tree, the context a request works from is the
/// lexical one at the cursor exactly when `trigger_outside_strings` is on, split by
/// the settings' path separators and recognising their mapping keys; with the
/// setting off there is none. A position outside the text has no context either.
pub proof fn lemma_context_without_tree(
    text: Seq<char>,
    position: Position,
    document_path: Option<Seq<char>>,
    allow_empty_token: bool,
    settings: CompiledSettings,
    ctx: Option<ContextView>,
)
    requires
        extracted_context(text, position, None, document_path, allow_empty_token, settings_fallback(settings), ctx),
    ensures
        match position_index(text, position) {
            None => ctx is None,
            Some(k) => if settings.raw_settings().trigger_outside_strings {
                ctx == outside_context(
                    text,
                    k,
                    document_path,
                    allow_empty_token,
                    settings.raw_settings().path_separators@,
                    settings.mapping_keys(),
                )
            } else {
                ctx is None
            },
        },
{
}

/// Completes paths. It holds no state: each request carries what it needs.
#[derive(Clone, Copy, Debug)]
pub struct PathSenseEngine;

impl PathSenseEngine {
    /// The plan for a request whose context is known (see [`plan_for`]).
    pub fn plan_for_context(&self, request: &CompletionRequest, context: &CompletionContext) -> (r: CompletionPlan)
        ensures
            plan_for(
                r,
                context@,
                request.is_manual_trigger,
                request.trigger_character,
                request.workspace_roots@,
                *request.settings,
                doc_view(request.home),
            ),
    {
        let settings = request.settings;
        if ends_with_ignored_prefix(&context.line_prefix, settings.ignored_prefixes()) {
            return CompletionPlan::Respond(Some(Vec::new()));
        }
        let keys = settings.normalized_path_mapping_keys();
        if should_suppress_for_min_auto_trigger(
            request.is_manual_trigger,
            request.trigger_character,
            context,
            keys,
            settings.min_auto_trigger_word_length(),
        ) {
            return CompletionPlan::Respond(None);
        }
        let mapping_items = mapping_prefix_items(context, keys, settings);
        if mapping_items.len() > 0 {
            return CompletionPlan::Respond(Some(mapping_items));
        }
        let bases = resolve_bases(context, request.workspace_roots, settings, request.home);
        CompletionPlan::ListDirectories { bases, range: context.replacement_range }
    }

    /// The plan for a request: the context at the cursor (a manual request allows an
    /// empty token), then [`PathSenseEngine::plan_for_context`]; no answer without a context.
    pub fn plan(&self, request: &CompletionRequest) -> (r: CompletionPlan)
        requires
            positions_fit(request.text@),
        ensures
            exists|ctx: Option<ContextView>|
                #[trigger] extracted_context(
                    request.text@,
                    request.position,
                    snapshot_language(request.syntax),
                    doc_view(request.document_path),
                    request.is_manual_trigger,
                    settings_fallback(*request.settings),
                    ctx,
                ) && match ctx {
                    None => r matches CompletionPlan::Respond(None),
                    Some(c) => plan_for(
                        r,
                        c,
                        request.is_manual_trigger,
                        request.trigger_character,
                        request.workspace_roots@,
                        *request.settings,
                        doc_view(request.home),
                    ),
                },
    {
        let settings = request.settings;
        let keys = settings.normalized_path_mapping_keys();
        let config = OutsideStringsConfig { path_separators: settings.path_separators(), mapping_keys: keys };
        let outside = if settings.trigger_outside_strings() {
            Some(&config)
        } else {
            None
        };
        assert(outside_view(outside) == settings_fallback(*settings)) by {
            assert(keys_view(keys@) == settings.mapping_keys());
        }
        let context = extract_completion_context(
            request.text,
            request.position,
            request.syntax,
            request.document_path,
            request.is_manual_trigger,
            keys,
            outside,
        );
        match context {
            Some(c) => {
                let r = self.plan_for_context(request, &c);
                assert(extracted_context(
                    request.text@,
                    request.position,
                    snapshot_language(request.syntax),
                    doc_view(request.document_path),
                    request.is_manual_trigger,
                    settings_fallback(*request.settings),
                    Some(c@),
                ));
                r
            },
            None => {
                assert(extracted_context(
                    request.text@,
                    request.position,
                    snapshot_language(request.syntax),
                    doc_view(request.document_path),
                    request.is_manual_trigger,
                    settings_fallback(*request.settings),
                    None,
                ));
                CompletionPlan::Respond(None)
            },
        }
    }

    /// Items for the mapping keys the context's token begins.
    pub fn items_for_mapping_prefixes(context: &CompletionContext, settings: &CompiledSettings) -> (r: Vec<CompletionItem>)
        ensures
            mapping_items_ok(
                items_view(r@),
                settings.mapping_keys(),
                context@.raw_token,
                context@.replacement_range,
                *settings,
            ),
    {
        mapping_prefix_items(context, settings.normalized_path_mapping_keys(), settings)
    }

    /// What completing a known context takes: the mapping keys its token begins,
    /// else listing the bases.
    pub fn items_for_context(
        context: &CompletionContext,
        workspace_roots: &WorkspaceRoots,
        settings: &CompiledSettings,
        home: Option<&String>,
    ) -> (r: CompletionPlan)
        ensures
            if mapping_candidate_specs(settings.mapping_keys(), context@.raw_token).len() > 0 {
                r matches CompletionPlan::Respond(Some(items)) && mapping_items_ok(
                    items_view(items@),
                    settings.mapping_keys(),
                    context@.raw_token,
                    context@.replacement_range,
                    *settings,
                )
            } else {
                r matches CompletionPlan::ListDirectories { bases, range } && bases_view(bases@)
                    == resolved_bases(context@, workspace_roots@, *settings, doc_view(home)) && range
                    == context@.replacement_range
            },
    {
        let mapping_items = mapping_prefix_items(context, settings.normalized_path_mapping_keys(), settings);
        if mapping_items.len() > 0 {
            return CompletionPlan::Respond(Some(mapping_items));
        }
        let bases = resolve_bases(context, workspace_roots, settings, home);
        CompletionPlan::ListDirectories { bases, range: context.replacement_range }
    }

    /// Items for the entries found under the bases (see [`completion_items_for_bases`]),
    /// or none.
    pub fn items_for_bases(
        bases: &Vec<ResolvedBase>,
        listings: &Vec<BaseListing>,
        range: Range,
        settings: &CompiledSettings,
    ) -> (r: Vec<CompletionItem>)
        requires
            bases@.len() == listings@.len(),
        ensures
            ranked_items(
                items_view(r@),
                all_candidate_specs(bases_view(bases@), listings@, settings.raw_settings().disable_up_one_folder),
                range,
                *settings,
            ),
    {
        match completion_items_for_bases(bases, listings, range, settings) {
            Some(items) => items,
            None => {
                let empty: Vec<CompletionItem> = Vec::new();
                proof {
                    let specs = all_candidate_specs(
                        bases_view(bases@),
                        listings@,
                        settings.raw_settings().disable_up_one_folder,
                    );
                    let items = choose|items: Seq<ItemView>|
                        items.len() == 0 && #[trigger] ranked_items(items, specs, range, *settings);
                    assert(items =~= items_view(empty@));
                }
                empty
            },
        }
    }
}

/// Entries are offered only when their name matches the prefix, and hidden entries
/// (other than the synthetic `..`) only when the prefix starts with a dot.
pub proof fn lemma_entries_match_prefix(entries: Seq<DirectoryEntry>, base: BaseView)
    ensures
        forall|i: int| 0 <= i < entry_specs(entries, base).len() ==> {
            let s = #[trigger] entry_specs(entries, base)[i];
            &&& match_quality_spec(s.name, base.prefix) == Some(s.quality)
            &&& s.name.len() > 0
            &&& s.name[0] == '.' ==> base.prefix.len() > 0 && base.prefix[0] == '.'
            &&& s.insert_prefix == base.insert_prefix
        },
    decreases entries.len(),
{
    if entries.len() > 0 {
        lemma_entries_match_prefix(entries.drop_last(), base);
    }
}

/// Ranked candidates come in rank order (prefix-matching directories, prefix-matching
/// files, contains-matching directories, contains-matching files, then `..`),
/// complete each text once, and are each the candidate kept for their text.
pub proof fn lemma_ranked_candidates(cs: Seq<Candidate>, d: Seq<Candidate>, sorted: Seq<Candidate>, perm: Seq<int>)
    requires
        is_dedup_of(d, cs),
        is_stable_sort_of(sorted, d, perm),
    ensures
        forall|k: int, l: int| 0 <= k < l < sorted.len() ==> (#[trigger] sorted[k]).rank() <= (#[trigger] sorted[l]).rank(),
        forall|k: int, l: int|
            0 <= k < sorted.len() && 0 <= l < sorted.len() && k != l ==> !same_key(#[trigger] sorted[k], #[trigger] sorted[l]),
        forall|k: int| 0 <= k < sorted.len() ==> is_kept_candidate(cs, #[trigger] sorted[k]),
{
    lemma_dedup_distinct(d, cs);
    assert forall|k: int, l: int| 0 <= k < l < sorted.len() implies (#[trigger] sorted[k]).rank() <= (
    #[trigger] sorted[l]).rank() by {
        assert(!candidate_before(sorted[l], sorted[k]));
    }
    assert forall|k: int, l: int|
        0 <= k < sorted.len() && 0 <= l < sorted.len() && k != l implies !same_key(
        #[trigger] sorted[k],
        #[trigger] sorted[l],
    ) by {
        assert(sorted[k] == d[perm[k]] && sorted[l] == d[perm[l]]);
        if k < l {
            assert(perm[k] != perm[l]);
        } else {
            assert(perm[l] != perm[k]);
        }
    }
    assert forall|k: int| 0 <= k < sorted.len() implies is_kept_candidate(cs, #[trigger] sorted[k]) by {
        assert(sorted[k] == d[perm[k]]);
    }
}

} // verus!
