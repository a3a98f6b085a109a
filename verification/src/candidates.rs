//! Completion candidates: how an entry name matches the typed prefix, how
//! candidates rank, and keeping one candidate per completed text.
use crate::chars::to_chars;
use crate::order::{lemma_lex_asymmetric, lemma_lex_irreflexive, lemma_lex_total, lemma_lex_transitive, lex_less, lex_lt};
use crate::sorting::StrictOrder;
use crate::strs::{starts_with, vec_eq, vec_starts_with};
use vstd::prelude::*;

verus! {

/// The lower-case form `str::to_lowercase` gives (Unicode case mapping).
pub uninterp spec fn lowercase(s: Seq<char>) -> Seq<char>;

/// `str::to_lowercase`.
#[verifier::external_body]
pub(crate) fn to_lowercase(s: &str) -> (r: String)
    ensures
        r@ == lowercase(s@),
{
    s.to_lowercase()
}

/// How an entry name matches the typed prefix.
#[derive(Clone, Copy, Debug, PartialEq, Eq, Structural)]
pub enum MatchQuality {
    Prefix,
    Contains,
}

/// `p` occurs in `s`.
pub open spec fn contains_seq(s: Seq<char>, p: Seq<char>) -> bool {
    exists|i: int| 0 <= i && i + p.len() <= s.len() && #[trigger] s.subrange(i, i + p.len()) == p
}

/// Names that begin with the prefix match first; other names containing it match
/// too, unless the prefix starts with a dot.
pub open spec fn match_quality_spec(name: Seq<char>, prefix: Seq<char>) -> Option<MatchQuality> {
    if starts_with(name, prefix) {
        Some(MatchQuality::Prefix)
    } else if prefix.len() > 0 && prefix[0] == '.' {
        None
    } else if contains_seq(name, prefix) {
        Some(MatchQuality::Contains)
    } else {
        None
    }
}

fn contains_vec(s: &Vec<char>, p: &Vec<char>) -> (r: bool)
    ensures
        r == contains_seq(s@, p@),
{
    if p.len() > s.len() {
        return false;
    }
    if p.len() == 0 {
        assert(s@.subrange(0, 0int + p@.len()) =~= p@);
        return true;
    }
    let n = s.len();
    let mut i: usize = 0;
    let last = s.len() - p.len();
    while i <= last
        invariant
            n == s@.len(),
            p@.len() > 0,
            last == s@.len() - p@.len(),
            p@.len() <= s@.len(),
            i <= s@.len() - p@.len() + 1,
            forall|j: int| 0 <= j < i ==> #[trigger] s@.subrange(j, j + p@.len()) != p@,
        decreases s@.len() - i,
    {
        let mut k: usize = 0;
        let mut same = true;
        while k < p.len()
            invariant
                n == s@.len(),
                i + p@.len() <= s@.len(),
                k <= p@.len(),
                same == forall|m: int| 0 <= m < k ==> s@[i + m] == p@[m],
            decreases p@.len() - k,
        {
            assert(i + k < s@.len());
            if s[i + k] != p[k] {
                same = false;
            }
            k = k + 1;
        }
        if same {
            assert(s@.subrange(i as int, i + p@.len()) =~= p@);
            return true;
        }
        proof {
            let m = choose|m: int| 0 <= m < p@.len() && s@[i + m] != p@[m];
            assert(s@.subrange(i as int, i + p@.len())[m] != p@[m]);
        }
        i = i + 1;
    }
    proof {
        assert forall|j: int| 0 <= j && j + p@.len() <= s@.len() implies #[trigger] s@.subrange(
            j,
            j + p@.len(),
        ) != p@ by {
            assert(j < i);
        }
    }
    false
}

/// Executable form of [`match_quality_spec`].
pub fn match_quality(name: &Vec<char>, prefix: &Vec<char>) -> (r: Option<MatchQuality>)
    ensures
        r == match_quality_spec(name@, prefix@),
{
    if vec_starts_with(name, prefix) {
        Some(MatchQuality::Prefix)
    } else if prefix.len() > 0 && prefix[0] == '.' {
        None
    } else if contains_vec(name, prefix) {
        Some(MatchQuality::Contains)
    } else {
        None
    }
}

/// Which names match a prefix, for prefixes of any length: a name that begins
/// with the prefix is a prefix match; a name that holds the prefix anywhere
/// matches whenever the prefix does not start with a dot (a one-character prefix
/// such as "s" matches "assets"); a name that does not hold the prefix never
/// matches.
pub proof fn lemma_match_quality_covers_occurrences(name: Seq<char>, prefix: Seq<char>)
    ensures
        (prefix.len() <= name.len() && name.subrange(0, prefix.len() as int) == prefix)
            ==> match_quality_spec(name, prefix) == Some(MatchQuality::Prefix),
        ((exists|i: int| 0 <= i && i + prefix.len() <= name.len() && #[trigger] name.subrange(i, i + prefix.len()) == prefix)
            && !(prefix.len() > 0 && prefix[0] == '.')) ==> match_quality_spec(name, prefix) is Some,
        !(exists|i: int| 0 <= i && i + prefix.len() <= name.len() && #[trigger] name.subrange(i, i + prefix.len()) == prefix)
            ==> match_quality_spec(name, prefix) is None,
{
    if prefix.len() <= name.len() && name.subrange(0, prefix.len() as int) == prefix {
        assert(name.take(prefix.len() as int) =~= name.subrange(0, prefix.len() as int));
    }
    if starts_with(name, prefix) {
        assert(name.subrange(0, 0int + prefix.len()) =~= name.take(prefix.len() as int));
    }
}

/// An entry offered for completion.
pub struct Candidate {
    pub name: String,
    pub sort_name: String,
    pub is_dir: bool,
    pub path: Option<String>,
    pub insert_prefix: String,
    pub match_quality: MatchQuality,
}

/// The rank of a candidate: directories before files, prefix matches before
/// contains matches, the synthetic `..` last.
pub open spec fn bucket(name: Seq<char>, quality: MatchQuality, is_dir: bool) -> int {
    if name == seq!['.', '.'] {
        4
    } else {
        match (quality, is_dir) {
            (MatchQuality::Prefix, true) => 0,
            (MatchQuality::Prefix, false) => 1,
            (MatchQuality::Contains, true) => 2,
            (MatchQuality::Contains, false) => 3,
        }
    }
}

impl Candidate {
    pub open spec fn rank(&self) -> int {
        bucket(self.name@, self.match_quality, self.is_dir)
    }

    /// A candidate, with its sort name the lower-case name.
    pub fn new(name: String, is_dir: bool, path: Option<String>, insert_prefix: String, match_quality: MatchQuality) -> (r: Candidate)
        ensures
            r.name == name,
            r.sort_name@ == lowercase(name@),
            r.is_dir == is_dir,
            r.path == path,
            r.insert_prefix == insert_prefix,
            r.match_quality == match_quality,
    {
        let sort_name = to_lowercase(name.as_str());
        Candidate { name, sort_name, is_dir, path, insert_prefix, match_quality }
    }

    pub fn sort_bucket(&self) -> (r: u8)
        ensures
            r as int == self.rank(),
    {
        let name = to_chars(self.name.as_str());
        if name.len() == 2 && name[0] == '.' && name[1] == '.' {
            assert(name@ =~= seq!['.', '.']);
            return 4;
        }
        assert(name@ != seq!['.', '.']);
        match (self.match_quality, self.is_dir) {
            (MatchQuality::Prefix, true) => 0,
            (MatchQuality::Prefix, false) => 1,
            (MatchQuality::Contains, true) => 2,
            (MatchQuality::Contains, false) => 3,
        }
    }
}

/// Candidate `a` sorts ahead of `b`: lower rank, then sort name in string order.
pub open spec fn candidate_before(a: Candidate, b: Candidate) -> bool {
    a.rank() < b.rank() || (a.rank() == b.rank() && lex_lt(a.sort_name@, b.sort_name@))
}

impl StrictOrder for Candidate {
    open spec fn before(a: Self, b: Self) -> bool {
        candidate_before(a, b)
    }

    proof fn lemma_irreflexive(a: Self) {
        lemma_lex_irreflexive(a.sort_name@);
    }

    proof fn lemma_transitive(a: Self, b: Self, c: Self) {
        if a.rank() == b.rank() && b.rank() == c.rank() {
            lemma_lex_transitive(a.sort_name@, b.sort_name@, c.sort_name@);
        }
    }

    proof fn lemma_neg_transitive(a: Self, b: Self, c: Self) {
        lemma_lex_total(c.sort_name@, b.sort_name@);
        if a.rank() == b.rank() && b.rank() == c.rank() && c.sort_name@ != b.sort_name@ {
            lemma_lex_asymmetric(b.sort_name@, c.sort_name@);
            lemma_lex_transitive(a.sort_name@, b.sort_name@, c.sort_name@);
        }
    }

    fn precedes(&self, other: &Self) -> (r: bool) {
        let a = self.sort_bucket();
        let b = other.sort_bucket();
        a < b || (a == b && lex_less(&to_chars(self.sort_name.as_str()), &to_chars(other.sort_name.as_str())))
    }
}

/// Candidates with the same name, kind and insert prefix complete to the same text.
pub open spec fn same_key(a: Candidate, b: Candidate) -> bool {
    a.name@ == b.name@ && a.is_dir == b.is_dir && a.insert_prefix@ == b.insert_prefix@
}

/// The order of (name, is directory, insert prefix), files before directories.
pub open spec fn key_lt(a: Candidate, b: Candidate) -> bool {
    ||| lex_lt(a.name@, b.name@)
    ||| (a.name@ == b.name@ && !a.is_dir && b.is_dir)
    ||| (a.name@ == b.name@ && a.is_dir == b.is_dir && lex_lt(a.insert_prefix@, b.insert_prefix@))
}

proof fn lemma_key_lt_not_same(a: Candidate, b: Candidate)
    requires
        key_lt(a, b),
    ensures
        !same_key(a, b),
        !key_lt(b, a),
{
    lemma_lex_irreflexive(a.name@);
    lemma_lex_irreflexive(a.insert_prefix@);
    lemma_lex_asymmetric(a.name@, b.name@);
    lemma_lex_asymmetric(a.insert_prefix@, b.insert_prefix@);
}

proof fn lemma_key_lt_transitive(a: Candidate, b: Candidate, c: Candidate)
    requires
        key_lt(a, b),
        key_lt(b, c),
    ensures
        key_lt(a, c),
{
    if lex_lt(a.name@, b.name@) && lex_lt(b.name@, c.name@) {
        lemma_lex_transitive(a.name@, b.name@, c.name@);
    }
    if a.name@ == b.name@ && b.name@ == c.name@ && a.is_dir == b.is_dir && b.is_dir == c.is_dir {
        if lex_lt(a.insert_prefix@, b.insert_prefix@) && lex_lt(b.insert_prefix@, c.insert_prefix@) {
            lemma_lex_transitive(a.insert_prefix@, b.insert_prefix@, c.insert_prefix@);
        }
    }
}

proof fn lemma_key_total(a: Candidate, b: Candidate)
    ensures
        same_key(a, b) || key_lt(a, b) || key_lt(b, a),
{
    lemma_lex_total(a.name@, b.name@);
    lemma_lex_total(a.insert_prefix@, b.insert_prefix@);
}

fn key_less(a: &Candidate, b: &Candidate) -> (r: bool)
    ensures
        r == key_lt(*a, *b),
{
    let an = to_chars(a.name.as_str());
    let bn = to_chars(b.name.as_str());
    if lex_less(&an, &bn) {
        return true;
    }
    if !vec_eq(&an, &bn) {
        return false;
    }
    if !a.is_dir && b.is_dir {
        return true;
    }
    a.is_dir == b.is_dir && lex_less(&to_chars(a.insert_prefix.as_str()), &to_chars(b.insert_prefix.as_str()))
}

fn same_key_exec(a: &Candidate, b: &Candidate) -> (r: bool)
    ensures
        r == same_key(*a, *b),
{
    a.is_dir == b.is_dir && vec_eq(&to_chars(a.name.as_str()), &to_chars(b.name.as_str())) && vec_eq(
        &to_chars(a.insert_prefix.as_str()),
        &to_chars(b.insert_prefix.as_str()),
    )
}

/// Candidate `i` is the one kept for its key: none of the same key sorts ahead of
/// it, and every earlier one of the same key sorts behind it.
pub open spec fn is_kept(cs: Seq<Candidate>, i: int) -> bool {
    &&& 0 <= i < cs.len()
    &&& forall|j: int|
        0 <= j < cs.len() && same_key(#[trigger] cs[j], cs[i]) ==> !candidate_before(cs[j], cs[i]) && (j < i
            ==> candidate_before(cs[i], cs[j]))
}

/// Some candidate of `d` has the key of `c`.
pub open spec fn has_key(d: Seq<Candidate>, c: Candidate) -> bool {
    exists|k: int| 0 <= k < d.len() && same_key(#[trigger] d[k], c)
}

/// `c` is the kept candidate of some key of `cs`.
pub open spec fn is_kept_candidate(cs: Seq<Candidate>, c: Candidate) -> bool {
    exists|i: int| is_kept(cs, i) && c == #[trigger] cs[i]
}

/// `d` holds one candidate per key of `cs`, the kept one, in key order.
pub open spec fn is_dedup_of(d: Seq<Candidate>, cs: Seq<Candidate>) -> bool {
    &&& forall|k: int, l: int| 0 <= k < l < d.len() ==> key_lt(#[trigger] d[k], #[trigger] d[l])
    &&& forall|k: int| 0 <= k < d.len() ==> is_kept_candidate(cs, #[trigger] d[k])
    &&& forall|i: int| 0 <= i < cs.len() ==> has_key(d, #[trigger] cs[i])
}

proof fn lemma_kept_extends(pre: Seq<Candidate>, c: Candidate, i: int)
    requires
        is_kept(pre, i),
        same_key(c, pre[i]) ==> !candidate_before(c, pre[i]),
    ensures
        is_kept(pre.push(c), i),
{
    let post = pre.push(c);
    assert forall|j: int| 0 <= j < post.len() && same_key(#[trigger] post[j], post[i]) implies !candidate_before(
        post[j],
        post[i],
    ) && (j < i ==> candidate_before(post[i], post[j])) by {
        if j < pre.len() {
            assert(post[j] == pre[j]);
        }
    }
}

proof fn lemma_kept_new(pre: Seq<Candidate>, c: Candidate)
    requires
        forall|j: int| 0 <= j < pre.len() && same_key(#[trigger] pre[j], c) ==> !candidate_before(pre[j], c)
            && candidate_before(c, pre[j]),
    ensures
        is_kept(pre.push(c), pre.len() as int),
{
    let post = pre.push(c);
    let n = pre.len() as int;
    assert forall|j: int| 0 <= j < post.len() && same_key(#[trigger] post[j], post[n]) implies !candidate_before(
        post[j],
        post[n],
    ) && (j < n ==> candidate_before(post[n], post[j])) by {
        if j < n {
            assert(post[j] == pre[j]);
        } else {
            <Candidate as StrictOrder>::lemma_irreflexive(c);
        }
    }
}

/// The new candidate takes the place of the kept one of its key.
#[verifier::rlimit(60)]
proof fn lemma_dedup_replace(pre: Seq<Candidate>, d: Seq<Candidate>, p: int, c: Candidate)
    requires
        is_dedup_of(d, pre),
        0 <= p < d.len(),
        same_key(d[p], c),
        candidate_before(c, d[p]),
    ensures
        is_dedup_of(d.update(p, c), pre.push(c)),
{
    let post = pre.push(c);
    let nd = d.update(p, c);
    assert(is_kept_candidate(pre, d[p]));
    let m = choose|i: int| is_kept(pre, i) && d[p] == #[trigger] pre[i];
    assert forall|j: int| 0 <= j < pre.len() && same_key(#[trigger] pre[j], c) implies !candidate_before(pre[j], c)
        && candidate_before(c, pre[j]) by {
        assert(same_key(pre[j], pre[m]));
        assert(!candidate_before(pre[j], pre[m]));
        if candidate_before(pre[j], c) {
            <Candidate as StrictOrder>::lemma_transitive(pre[j], c, pre[m]);
        }
        <Candidate as StrictOrder>::lemma_neg_transitive(c, pre[m], pre[j]);
    }
    lemma_kept_new(pre, c);
    assert forall|k: int| 0 <= k < nd.len() implies is_kept_candidate(post, #[trigger] nd[k]) by {
        if k == p {
            assert(nd[k] == post[pre.len() as int]);
        } else {
            assert(nd[k] == d[k]);
            assert(is_kept_candidate(pre, d[k]));
            let i = choose|i: int| is_kept(pre, i) && d[k] == #[trigger] pre[i];
            if k < p {
                lemma_key_lt_not_same(d[k], d[p]);
            } else {
                lemma_key_lt_not_same(d[p], d[k]);
            }
            lemma_kept_extends(pre, c, i);
            assert(post[i] == pre[i]);
        }
    }
    assert forall|i: int| 0 <= i < post.len() implies has_key(nd, #[trigger] post[i]) by {
        if i < pre.len() {
            assert(post[i] == pre[i]);
            assert(has_key(d, pre[i]));
            let k = choose|k: int| 0 <= k < d.len() && same_key(#[trigger] d[k], pre[i]);
            assert(same_key(nd[k], post[i]));
        } else {
            assert(same_key(nd[p], post[i]));
        }
    }
    assert forall|k: int, l: int| 0 <= k < l < nd.len() implies key_lt(#[trigger] nd[k], #[trigger] nd[l]) by {
        assert(key_lt(d[k], d[l]));
    }
}

/// The kept candidate of the key stays.
#[verifier::rlimit(60)]
proof fn lemma_dedup_keep(pre: Seq<Candidate>, d: Seq<Candidate>, p: int, c: Candidate)
    requires
        is_dedup_of(d, pre),
        0 <= p < d.len(),
        same_key(d[p], c),
        !candidate_before(c, d[p]),
    ensures
        is_dedup_of(d, pre.push(c)),
{
    let post = pre.push(c);
    assert forall|k: int| 0 <= k < d.len() implies is_kept_candidate(post, #[trigger] d[k]) by {
        assert(is_kept_candidate(pre, d[k]));
        let i = choose|i: int| is_kept(pre, i) && d[k] == #[trigger] pre[i];
        if k < p {
            lemma_key_lt_not_same(d[k], d[p]);
        } else if k > p {
            lemma_key_lt_not_same(d[p], d[k]);
        }
        lemma_kept_extends(pre, c, i);
        assert(post[i] == pre[i]);
    }
    assert forall|i: int| 0 <= i < post.len() implies has_key(d, #[trigger] post[i]) by {
        if i < pre.len() {
            assert(post[i] == pre[i]);
            assert(has_key(d, pre[i]));
        } else {
            assert(same_key(d[p], post[i]));
        }
    }
}

/// Inserting at the place found by the key scan keeps `d` in key order, and the
/// inserted key is new.
proof fn lemma_insert_in_key_order(d: Seq<Candidate>, p: int, c: Candidate)
    requires
        forall|k: int, l: int| 0 <= k < l < d.len() ==> key_lt(#[trigger] d[k], #[trigger] d[l]),
        0 <= p <= d.len(),
        forall|k: int| 0 <= k < p ==> key_lt(#[trigger] d[k], c),
        p < d.len() ==> !key_lt(d[p], c) && !same_key(d[p], c),
    ensures
        forall|k: int, l: int| 0 <= k < l < d.insert(p, c).len() ==> key_lt(#[trigger] d.insert(p, c)[k], #[trigger] d.insert(p, c)[l]),
        forall|k: int| 0 <= k < d.len() ==> !same_key(#[trigger] d[k], c),
{
    let nd = d.insert(p, c);
    if p < d.len() {
        lemma_key_total(d[p], c);
    }
    assert forall|k: int| 0 <= k < d.len() implies !same_key(#[trigger] d[k], c) by {
        if k < p {
            lemma_key_lt_not_same(d[k], c);
        } else if k == p {
            lemma_key_lt_not_same(c, d[k]);
        } else {
            assert(key_lt(d[p], d[k]));
            lemma_key_lt_transitive(c, d[p], d[k]);
            lemma_key_lt_not_same(c, d[k]);
        }
    }
    assert forall|k: int, l: int| 0 <= k < l < nd.len() implies key_lt(#[trigger] nd[k], #[trigger] nd[l]) by {
        if l < p {
            assert(nd[k] == d[k] && nd[l] == d[l]);
        } else if l == p {
            assert(nd[k] == d[k]);
        } else if k < p {
            assert(nd[k] == d[k] && nd[l] == d[l - 1]);
            if l - 1 > p {
                assert(key_lt(d[p], d[l - 1]));
                lemma_key_lt_transitive(c, d[p], d[l - 1]);
            }
            lemma_key_lt_transitive(nd[k], c, nd[l]);
        } else if k == p {
            assert(nd[l] == d[l - 1]);
            if l - 1 > p {
                assert(key_lt(d[p], d[l - 1]));
                lemma_key_lt_transitive(c, d[p], d[l - 1]);
            }
        } else {
            assert(nd[k] == d[k - 1] && nd[l] == d[l - 1]);
        }
    }
}

proof fn lemma_insert_kept(pre: Seq<Candidate>, d: Seq<Candidate>, p: int, c: Candidate)
    requires
        forall|k: int| 0 <= k < d.len() ==> is_kept_candidate(pre, #[trigger] d[k]),
        forall|k: int| 0 <= k < d.len() ==> !same_key(#[trigger] d[k], c),
        is_kept(pre.push(c), pre.len() as int),
        0 <= p <= d.len(),
    ensures
        forall|k: int| 0 <= k < d.insert(p, c).len() ==> is_kept_candidate(pre.push(c), #[trigger] d.insert(p, c)[k]),
{
    let post = pre.push(c);
    let nd = d.insert(p, c);
    assert forall|k: int| 0 <= k < nd.len() implies is_kept_candidate(post, #[trigger] nd[k]) by {
        if k == p {
            assert(nd[k] == post[pre.len() as int]);
        } else {
            let kk = if k < p {
                k
            } else {
                k - 1
            };
            assert(nd[k] == d[kk]);
            assert(is_kept_candidate(pre, d[kk]));
            let i = choose|i: int| is_kept(pre, i) && d[kk] == #[trigger] pre[i];
            lemma_kept_extends(pre, c, i);
            assert(post[i] == pre[i]);
        }
    }
}

proof fn lemma_insert_covers(pre: Seq<Candidate>, d: Seq<Candidate>, p: int, c: Candidate)
    requires
        forall|i: int| 0 <= i < pre.len() ==> has_key(d, #[trigger] pre[i]),
        0 <= p <= d.len(),
    ensures
        forall|i: int| 0 <= i < pre.push(c).len() ==> has_key(d.insert(p, c), #[trigger] pre.push(c)[i]),
{
    let post = pre.push(c);
    let nd = d.insert(p, c);
    assert forall|i: int| 0 <= i < post.len() implies has_key(nd, #[trigger] post[i]) by {
        if i < pre.len() {
            assert(post[i] == pre[i]);
            assert(has_key(d, pre[i]));
            let k = choose|k: int| 0 <= k < d.len() && same_key(#[trigger] d[k], pre[i]);
            if k < p {
                assert(nd[k] == d[k]);
            } else {
                assert(nd[k + 1] == d[k]);
            }
        } else {
            assert(same_key(nd[p], post[i]));
        }
    }
}

/// A candidate of a new key goes in at its place in key order.
proof fn lemma_dedup_insert(pre: Seq<Candidate>, d: Seq<Candidate>, p: int, c: Candidate)
    requires
        is_dedup_of(d, pre),
        0 <= p <= d.len(),
        forall|k: int| 0 <= k < p ==> key_lt(#[trigger] d[k], c),
        p < d.len() ==> !key_lt(d[p], c) && !same_key(d[p], c),
    ensures
        is_dedup_of(d.insert(p, c), pre.push(c)),
{
    lemma_insert_in_key_order(d, p, c);
    assert forall|j: int| 0 <= j < pre.len() implies !same_key(#[trigger] pre[j], c) by {
        assert(has_key(d, pre[j]));
        let k = choose|k: int| 0 <= k < d.len() && same_key(#[trigger] d[k], pre[j]);
        assert(!same_key(d[k], c));
    }
    lemma_kept_new(pre, c);
    lemma_insert_kept(pre, d, p, c);
    lemma_insert_covers(pre, d, p, c);
}

/// Keeps one candidate per key: the first among those that sort ahead of the others
/// of that key. The result is in key order.
pub fn dedupe_candidates(cs: Vec<Candidate>) -> (r: Vec<Candidate>)
    ensures
        is_dedup_of(r@, cs@),
{
    let ghost input = cs@;
    let total: usize = cs.len();
    assert(input.len() == total);
    let mut rest = cs;
    let mut d: Vec<Candidate> = Vec::new();
    let mut n: usize = 0;
    assert(input.take(0) =~= Seq::<Candidate>::empty());
    while rest.len() > 0
        invariant
            input.len() <= usize::MAX,
            n + rest@.len() == input.len(),
            rest@ == input.skip(n as int),
            is_dedup_of(d@, input.take(n as int)),
        decreases rest@.len(),
    {
        let c = rest.remove(0);
        let ghost pre = input.take(n as int);
        let ghost old_d = d@;
        proof {
            assert(c == input[n as int]);
            assert(input.take(n as int + 1) =~= pre.push(c));
        }
        let mut p: usize = 0;
        while p < d.len() && key_less(&d[p], &c)
            invariant
                old_d == d@,
                p <= d@.len(),
                forall|k: int| 0 <= k < p ==> key_lt(#[trigger] d@[k], c),
            decreases d@.len() - p,
        {
            p = p + 1;
        }
        if p < d.len() && same_key_exec(&d[p], &c) {
            if c.precedes(&d[p]) {
                proof {
                    lemma_dedup_replace(pre, old_d, p as int, c);
                }
                d.set(p, c);
            } else {
                proof {
                    lemma_dedup_keep(pre, old_d, p as int, c);
                }
            }
        } else {
            proof {
                lemma_dedup_insert(pre, old_d, p as int, c);
            }
            d.insert(p, c);
        }
        proof {
            assert(rest@ =~= input.skip(n as int + 1));
        }
        n = n + 1;
    }
    assert(input.take(n as int) =~= input);
    d
}

/// A deduplicated list completes each text once.
pub proof fn lemma_dedup_distinct(d: Seq<Candidate>, cs: Seq<Candidate>)
    requires
        is_dedup_of(d, cs),
    ensures
        forall|k: int, l: int| 0 <= k < d.len() && 0 <= l < d.len() && k != l ==> !same_key(#[trigger] d[k], #[trigger] d[l]),
{
    assert forall|k: int, l: int| 0 <= k < d.len() && 0 <= l < d.len() && k != l implies !same_key(
        #[trigger] d[k],
        #[trigger] d[l],
    ) by {
        if k < l {
            lemma_key_lt_not_same(d[k], d[l]);
        } else {
            lemma_key_lt_not_same(d[l], d[k]);
        }
    }
}

} // verus!
