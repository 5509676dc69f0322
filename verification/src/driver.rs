//! The cleanup run's decisions: the order of its steps, the paths each
//! step touches, which absences are tolerated, and which outcomes
//! abort the run. The host's registry query and the actual file
//! removals are outside collaborators; they hand this module plain
//! values and carry out the plans it returns.

use crate::parse::ParseError;
use crate::parse::lemma_unterminated_string_fails;
use crate::parse::parse_config;
use crate::parse::parse_doc;
use crate::parse::parse_pairs;
use crate::parse::skip_ws;
use crate::paths::workshop_cache;
use crate::paths::workshop_cache_path;
use crate::resolve::SchemaError;
use crate::resolve::first_val;
use crate::resolve::lemma_resolved_count;
use crate::resolve::libraries_key;
use crate::resolve::library_entry_count;
use crate::resolve::resolve_library_roots;
use crate::resolve::resolved_roots;
use crate::tree::NodeView;
use crate::tree::chars_clone;
use crate::tree::lemma_chars_deep;
use vstd::prelude::*;

verus! {

/// A fatal condition: the run aborts on any of these.
#[derive(Debug)]
pub enum CleanupError {
    /// The host holds no install path; nothing further is meaningful.
    NotConfigured,
    /// The library-folders file exists but could not be read.
    ConfigUnreadable,
    /// The library-folders file violates the grammar.
    BadParse(ParseError),
    /// The library-folders file parses but lacks the required shape.
    BadSchema(SchemaError),
    /// An entry that exists could not be removed; the path names it.
    RemovalFailed(Vec<char>),
}

/// The outcome of reading the library-folders file. An absent file
/// registers no additional libraries; one that exists but cannot be
/// read is fatal, never to be mistaken for an absent one.
pub enum ConfigSource {
    Absent,
    Unreadable,
    Text(Vec<char>),
}

/// The install locator's decision: the host either yields the install
/// path or the run cannot start at all.
pub fn judge_install(install: Option<Vec<char>>) -> (r: Result<Vec<char>, CleanupError>)
    ensures
        install matches Some(p) ==> (r matches Ok(q) && q == p),
        install is None ==> (r matches Err(e) && e is NotConfigured),
{
    match install {
        Some(p) => Ok(p),
        None => Err(CleanupError::NotConfigured),
    }
}

/// The steps of a run, in order; a fatal outcome moves any of them to
/// `Aborted`.
#[derive(Clone, Copy, Debug, PartialEq, Eq, Structural)]
pub enum Phase {
    LocateInstall,
    PurgeLoginCache,
    PurgeUserData,
    ResolveLibraries,
    PurgeWorkshopCaches,
    Done,
    Aborted,
}

/// The step that follows a step brought to a good end.
pub open spec fn next_phase(p: Phase) -> Phase {
    match p {
        Phase::LocateInstall => Phase::PurgeLoginCache,
        Phase::PurgeLoginCache => Phase::PurgeUserData,
        Phase::PurgeUserData => Phase::ResolveLibraries,
        Phase::ResolveLibraries => Phase::PurgeWorkshopCaches,
        Phase::PurgeWorkshopCaches => Phase::Done,
        Phase::Done => Phase::Done,
        Phase::Aborted => Phase::Aborted,
    }
}

/// Advances the run: a fatal outcome aborts it, any other moves it to
/// the next step; there is no retry and no rollback.
pub fn advance(p: Phase, fatal: bool) -> (q: Phase)
    ensures
        q == if fatal {
            Phase::Aborted
        } else {
            next_phase(p)
        },
{
    if fatal {
        Phase::Aborted
    } else {
        match p {
            Phase::LocateInstall => Phase::PurgeLoginCache,
            Phase::PurgeLoginCache => Phase::PurgeUserData,
            Phase::PurgeUserData => Phase::ResolveLibraries,
            Phase::ResolveLibraries => Phase::PurgeWorkshopCaches,
            Phase::PurgeWorkshopCaches => Phase::Done,
            Phase::Done => Phase::Done,
            Phase::Aborted => Phase::Aborted,
        }
    }
}

/// What the library-folders file resolves to: an absent file registers
/// no additional libraries, a present one is parsed and resolved, and
/// any violation of grammar or shape is fatal.
pub open spec fn resolution(contents: Option<Seq<char>>, install: Seq<char>) -> Result<
    Seq<Seq<char>>,
    CleanupError,
> {
    match contents {
        None => Ok(seq![workshop_cache(install)]),
        Some(text) => match parse_doc(text) {
            Err(p) => Err(CleanupError::BadParse(p)),
            Ok(doc) => match resolved_roots(doc, install) {
                Err(s) => Err(CleanupError::BadSchema(s)),
                Ok(rs) => Ok(rs),
            },
        },
    }
}

/// Resolves the library roots from what the read of the
/// library-folders file produced: an absent file yields the default
/// root alone, a present one is parsed and resolved, and one that
/// exists but could not be read is fatal.
pub fn resolve_library_list(source: ConfigSource, install: &Vec<char>) -> (r: Result<
    Vec<Vec<char>>,
    CleanupError,
>)
    ensures
        match source {
            ConfigSource::Absent => (match r {
                Ok(roots) => resolution(None, install@) matches Ok(rs) && rs == roots.deep_view()
                    && roots@.len() >= 1,
                Err(_) => false,
            }),
            ConfigSource::Unreadable => r matches Err(e) && e is ConfigUnreadable,
            ConfigSource::Text(text) => (match r {
                Ok(roots) => resolution(Some(text@), install@) matches Ok(rs) && rs
                    == roots.deep_view() && roots@.len() >= 1,
                Err(e) => match e {
                    CleanupError::BadParse(p) => resolution(Some(text@), install@) == Err::<
                        Seq<Seq<char>>,
                        _,
                    >(CleanupError::BadParse(p)),
                    CleanupError::BadSchema(s) => resolution(Some(text@), install@) == Err::<
                        Seq<Seq<char>>,
                        _,
                    >(CleanupError::BadSchema(s)),
                    _ => false,
                },
            }),
        },
{
    match source {
        ConfigSource::Absent => {
            let mut roots: Vec<Vec<char>> = Vec::new();
            roots.push(workshop_cache_path(install));
            proof {
                assert(roots.deep_view() =~~= seq![workshop_cache(install@)]);
            }
            Ok(roots)
        },
        ConfigSource::Unreadable => Err(CleanupError::ConfigUnreadable),
        ConfigSource::Text(text) => {
            match parse_config(&text) {
                Err(p) => Err(CleanupError::BadParse(p)),
                Ok(node) => match resolve_library_roots(&node, install) {
                    Err(s) => Err(CleanupError::BadSchema(s)),
                    Ok(roots) => {
                        proof {
                            lemma_resolved_count(node.deep_view(), install@);
                        }
                        Ok(roots)
                    },
                },
            }
        },
    }
}

/// The userdata purge: an absent directory means there is nothing to
/// do and no removal is attempted; a listing means every immediate
/// child is removed.
pub fn userdata_purge_plan(listing: Option<Vec<Vec<char>>>) -> (plan: Vec<Vec<char>>)
    ensures
        listing is None ==> plan@.len() == 0,
        listing matches Some(cs) ==> plan == cs,
{
    match listing {
        None => Vec::new(),
        Some(cs) => cs,
    }
}

/// One library's workshop cache: an absent cache directory is skipped
/// without error; a present one has every immediate child removed.
pub fn workshop_purge_plan(cache_exists: bool, children: Vec<Vec<char>>) -> (plan: Vec<Vec<char>>)
    ensures
        !cache_exists ==> plan@.len() == 0,
        cache_exists ==> plan == children,
{
    if cache_exists {
        children
    } else {
        Vec::new()
    }
}

/// The cache directory each resolved root contributes to the purge.
/// The first resolved root is the implicit default and already names a
/// workshop cache directory, so it is purged as it stands; every
/// further root is a registered library directory, whose cache is
/// derived from it.
pub fn workshop_targets(roots: &Vec<Vec<char>>) -> (ts: Vec<Vec<char>>)
    ensures
        ts@.len() == roots@.len(),
        roots@.len() > 0 ==> ts.deep_view()[0] == roots@[0]@,
        forall|k: int|
            1 <= k < roots@.len() ==> ts.deep_view()[k] == workshop_cache(roots@[k]@),
{
    let mut ts: Vec<Vec<char>> = Vec::new();
    let mut i: usize = 0;
    while i < roots.len()
        invariant
            i <= roots.len(),
            ts@.len() == i,
            i > 0 ==> ts.deep_view()[0] == roots@[0]@,
            forall|k: int| 1 <= k < i ==> ts.deep_view()[k] == workshop_cache(roots@[k]@),
        decreases roots.len() - i,
    {
        let t = if i == 0 {
            chars_clone(&roots[0])
        } else {
            workshop_cache_path(&roots[i])
        };
        let ghost ts0 = ts.deep_view();
        ts.push(t);
        proof {
            lemma_chars_deep(t);
            assert(ts.deep_view() =~~= ts0 + seq![t@]);
        }
        i += 1;
    }
    ts
}

/// The removal policy for an enumerated entry: one that vanished
/// before its removal is already-satisfied state, but a failure on an
/// entry that exists is fatal and names the path.
pub fn judge_removal(path: Vec<char>, existed: bool, removed: bool) -> (r: Result<
    (),
    CleanupError,
>)
    ensures
        !existed ==> r is Ok,
        existed && removed ==> r is Ok,
        existed && !removed ==> (r matches Err(CleanupError::RemovalFailed(p)) && p@ == path@),
{
    if existed && !removed {
        Err(CleanupError::RemovalFailed(path))
    } else {
        Ok(())
    }
}

/// How many library entries a file's text registers once parsed.
pub open spec fn text_entry_count(text: Seq<char>) -> nat {
    match parse_doc(text) {
        Ok(doc) => library_entry_count(doc),
        Err(_) => 0,
    }
}

/// Law: parsing then resolving a well-formed text yields one root for
/// every library entry in it, plus the implicit default.
pub proof fn lemma_resolution_count(text: Seq<char>, install: Seq<char>)
    ensures
        resolution(Some(text), install) matches Ok(rs) ==> rs.len() == text_entry_count(text) + 1,
{
    match parse_doc(text) {
        Ok(doc) => {
            lemma_resolved_count(doc, install);
        },
        Err(_) => {},
    }
}

/// What a cache directory still lists once the removed entries are
/// gone.
pub open spec fn remaining_children(children: Seq<Seq<char>>, removed: Seq<Seq<char>>) -> Seq<
    Seq<char>,
> {
    children.filter(|c: Seq<char>| !removed.contains(c))
}

/// Law: a plan that covers every listed child leaves the cache with
/// nothing listed once the collaborator removes the planned entries.
pub proof fn lemma_full_plan_empties_cache(children: Seq<Seq<char>>, plan: Seq<Seq<char>>)
    requires
        plan == children,
    ensures
        remaining_children(children, plan).len() == 0,
{
    let pred = |c: Seq<char>| !plan.contains(c);
    assert forall|i: int| 0 <= i < children.len() implies !pred(children[i]) by {
        assert(plan.contains(children[i]));
    }
    assert(children.all(|c: Seq<char>| !pred(c)));
    children.lemma_all_neg_filter_empty(pred);
}

/// Law: any grammar violation in the file's text is fatal with that
/// very parse error, while an absent file resolves to the default
/// root; the two outcomes are never conflated.
pub proof fn lemma_parse_failure_fatal(text: Seq<char>, install: Seq<char>)
    ensures
        parse_doc(text) matches Err(e) ==> resolution(Some(text), install) == Err::<
            Seq<Seq<char>>,
            _,
        >(CleanupError::BadParse(e)),
        resolution(None, install) is Ok,
{
}

/// Law: a config text with a quoted string that never closes is fatal
/// with the parse error — distinct from an absent file, which
/// resolves to the default root alone.
pub proof fn lemma_unterminated_config_fatal(s: Seq<char>, t: Seq<char>, install: Seq<char>)
    requires
        parse_doc(s) is Ok,
        t.len() > 0,
        t[0] == '"',
        forall|k: int| 1 <= k < t.len() ==> t[k] != '"' && t[k] != '\\',
    ensures
        resolution(Some(s + t), install) == Err::<Seq<Seq<char>>, _>(
            CleanupError::BadParse(ParseError::UnterminatedString),
        ),
        resolution(None, install) is Ok,
{
    lemma_unterminated_string_fails(s, t);
}

/// Law: an absent or empty library-folders file resolves to exactly
/// one root, the install root's own workshop cache.
pub proof fn lemma_default_resolution(install: Seq<char>)
    ensures
        resolution(None, install) == Ok::<_, CleanupError>(seq![workshop_cache(install)]),
        resolution(Some(Seq::<char>::empty()), install) == Ok::<_, CleanupError>(
            seq![workshop_cache(install)],
        ),
{
    let s = Seq::<char>::empty();
    assert(skip_ws(s, 0) == 0);
    assert(parse_pairs(s, 0) == Ok::<_, ParseError>((Seq::<(Seq<char>, NodeView)>::empty(), 0nat)));
    assert(first_val(Seq::<(Seq<char>, NodeView)>::empty(), libraries_key()) is None);
}

} // verus!
