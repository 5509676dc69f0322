//! Resolution of a parsed configuration tree into the list of library
//! roots: the install root's own workshop cache first, then one root
//! for every library entry registered under the `libraryfolders` key.
//! A library entry that cannot yield a usable path fails the whole
//! resolution: a silently dropped entry would leave cached content
//! behind undetected.

use crate::paths::workshop_cache;
use crate::paths::workshop_cache_path;
use crate::tree::ConfigNode;
use crate::tree::NodeView;
use crate::tree::chars_eq;
use crate::tree::lemma_chars_deep;
use crate::tree::lemma_object_view;
use crate::unescape::unescape;
use crate::unescape::unescaped;
use vstd::prelude::*;

verus! {

/// Ways in which a tree that parsed can still lack the required shape.
#[derive(Clone, Copy, Debug, PartialEq, Eq, Structural)]
pub enum SchemaError {
    /// The tree handed to the resolver is not an object.
    NotAnObject,
    /// The `libraryfolders` value is a scalar, not an object.
    LibrariesNotAnObject,
    /// A library entry is a scalar, not an object.
    EntryNotAnObject,
    /// A library entry has no `path` field.
    MissingPath,
    /// A library entry's `path` field is an object, not a scalar.
    PathNotText,
}

/// The key under which the configuration groups its library entries.
pub open spec fn libraries_key() -> Seq<char> {
    seq!['l', 'i', 'b', 'r', 'a', 'r', 'y', 'f', 'o', 'l', 'd', 'e', 'r', 's']
}

/// The field of a library entry that holds its directory.
pub open spec fn path_key() -> Seq<char> {
    seq!['p', 'a', 't', 'h']
}

/// The value of the first entry carrying `key`, if any.
pub open spec fn first_val(es: Seq<(Seq<char>, NodeView)>, key: Seq<char>) -> Option<NodeView>
    decreases es.len(),
{
    if es.len() == 0 {
        None
    } else if es[0].0 == key {
        Some(es[0].1)
    } else {
        first_val(es.skip(1), key)
    }
}

/// The root a single library entry yields: the literal text of its
/// `path` field, or the schema violation that stops it.
pub open spec fn entry_root(e: (Seq<char>, NodeView)) -> Result<Seq<char>, SchemaError> {
    match e.1 {
        NodeView::Scalar(_) => Err(SchemaError::EntryNotAnObject),
        NodeView::Object(fields) => match first_val(fields, path_key()) {
            None => Err(SchemaError::MissingPath),
            Some(NodeView::Object(_)) => Err(SchemaError::PathNotText),
            Some(NodeView::Scalar(raw)) => Ok(unescaped(raw)),
        },
    }
}

/// The roots of a run of library entries, in order; the first entry
/// that violates the schema fails them all.
pub open spec fn entry_roots(es: Seq<(Seq<char>, NodeView)>) -> Result<Seq<Seq<char>>, SchemaError>
    decreases es.len(),
{
    if es.len() == 0 {
        Ok(Seq::empty())
    } else {
        match entry_root(es[0]) {
            Err(e) => Err(e),
            Ok(p) => match entry_roots(es.skip(1)) {
                Err(e) => Err(e),
                Ok(rest) => Ok(seq![p] + rest),
            },
        }
    }
}

/// The full resolution: the install root's own workshop cache, then
/// one root per library entry. A tree without the `libraryfolders` key
/// registers no additional libraries.
pub open spec fn resolved_roots(doc: NodeView, install: Seq<char>) -> Result<
    Seq<Seq<char>>,
    SchemaError,
> {
    match doc {
        NodeView::Scalar(_) => Err(SchemaError::NotAnObject),
        NodeView::Object(top) => match first_val(top, libraries_key()) {
            None => Ok(seq![workshop_cache(install)]),
            Some(NodeView::Scalar(_)) => Err(SchemaError::LibrariesNotAnObject),
            Some(NodeView::Object(es)) => match entry_roots(es) {
                Err(e) => Err(e),
                Ok(rs) => Ok(seq![workshop_cache(install)] + rs),
            },
        },
    }
}

fn libraries_key_vec() -> (r: Vec<char>)
    ensures
        r@ == libraries_key(),
{
    let mut v: Vec<char> = Vec::new();
    v.push('l');
    v.push('i');
    v.push('b');
    v.push('r');
    v.push('a');
    v.push('r');
    v.push('y');
    v.push('f');
    v.push('o');
    v.push('l');
    v.push('d');
    v.push('e');
    v.push('r');
    v.push('s');
    proof {
        assert(v@ =~= libraries_key());
    }
    v
}

fn path_key_vec() -> (r: Vec<char>)
    ensures
        r@ == path_key(),
{
    let mut v: Vec<char> = Vec::new();
    v.push('p');
    v.push('a');
    v.push('t');
    v.push('h');
    proof {
        assert(v@ =~= path_key());
    }
    v
}

/// The value of the first entry of `entries` that carries `key`.
fn lookup_first<'a>(entries: &'a Vec<(Vec<char>, ConfigNode)>, key: &Vec<char>) -> (r: Option<
    &'a ConfigNode,
>)
    ensures
        match r {
            Some(n) => first_val(entries.deep_view(), key@) == Some(n.deep_view()),
            None => first_val(entries.deep_view(), key@) is None,
        },
{
    let ghost all = entries.deep_view();
    let mut i: usize = 0;
    proof {
        assert(all.skip(0) =~= all);
    }
    while i < entries.len()
        invariant
            i <= entries.len(),
            all == entries.deep_view(),
            first_val(all, key@) == first_val(all.skip(i as int), key@),
        decreases entries.len() - i,
    {
        let hit = chars_eq(&entries[i].0, key);
        proof {
            lemma_chars_deep(entries@[i as int].0);
            assert(all.skip(i as int)[0] == all[i as int]);
        }
        if hit {
            return Some(&entries[i].1);
        }
        proof {
            assert(all.skip(i as int).skip(1) =~= all.skip(i as int + 1));
        }
        i += 1;
    }
    proof {
        assert(all.skip(entries.len() as int) =~= Seq::<(Seq<char>, NodeView)>::empty());
    }
    None
}

/// Resolves a parsed tree and the install root into the ordered list
/// of library roots, or reports the first schema violation. On success
/// the list holds the install root's own workshop cache first and then
/// exactly one root per library entry, in entry order.
#[verifier::loop_isolation(false)]
pub fn resolve_library_roots(doc: &ConfigNode, install: &Vec<char>) -> (r: Result<
    Vec<Vec<char>>,
    SchemaError,
>)
    ensures
        match r {
            Ok(roots) => resolved_roots(doc.deep_view(), install@) == Ok::<_, SchemaError>(
                roots.deep_view(),
            ),
            Err(e) => resolved_roots(doc.deep_view(), install@) == Err::<Seq<Seq<char>>, _>(e),
        },
{
    match doc {
        ConfigNode::Scalar(_) => Err(SchemaError::NotAnObject),
        ConfigNode::Object(top) => {
            proof {
                lemma_object_view(*top);
            }
            let lk = libraries_key_vec();
            match lookup_first(top, &lk) {
                None => {
                    let mut roots: Vec<Vec<char>> = Vec::new();
                    roots.push(workshop_cache_path(install));
                    proof {
                        assert(roots.deep_view() =~~= seq![workshop_cache(install@)]);
                    }
                    Ok(roots)
                },
                Some(libs_node) => match libs_node {
                    ConfigNode::Scalar(_) => Err(SchemaError::LibrariesNotAnObject),
                    ConfigNode::Object(es) => {
                        proof {
                            lemma_object_view(*es);
                        }
                        let ghost esd = es.deep_view();
                        let pk = path_key_vec();
                        let mut libs: Vec<Vec<char>> = Vec::new();
                        let mut idx: usize = 0;
                        proof {
                            assert(esd.skip(0) =~= esd);
                            assert(match entry_roots(esd) {
                                Ok(rest) => libs.deep_view() + rest =~= rest,
                                Err(e) => true,
                            });
                        }
                        while idx < es.len()
                            invariant
                                idx <= es.len(),
                                pk@ == path_key(),
                                esd == es.deep_view(),
                                (match entry_roots(esd.skip(idx as int)) {
                                    Ok(rest) => entry_roots(esd) == Ok::<_, SchemaError>(
                                        libs.deep_view() + rest,
                                    ),
                                    Err(e) => entry_roots(esd) == Err::<Seq<Seq<char>>, _>(e),
                                }),
                            decreases es.len() - idx,
                        {
                            proof {
                                assert(esd.skip(idx as int)[0] == esd[idx as int]);
                                lemma_chars_deep(es@[idx as int].0);
                            }
                            match &es[idx].1 {
                                ConfigNode::Scalar(_) => {
                                    proof {
                                        assert(entry_root(esd[idx as int]) == Err::<Seq<char>, _>(
                                            SchemaError::EntryNotAnObject,
                                        ));
                                        assert(entry_roots(esd.skip(idx as int)) == Err::<
                                            Seq<Seq<char>>,
                                            _,
                                        >(SchemaError::EntryNotAnObject));
                                    }
                                    return Err(SchemaError::EntryNotAnObject);
                                },
                                ConfigNode::Object(fields) => {
                                    proof {
                                        lemma_object_view(*fields);
                                    }
                                    match lookup_first(fields, &pk) {
                                        None => {
                                            proof {
                                                assert(entry_root(esd[idx as int]) == Err::<
                                                    Seq<char>,
                                                    _,
                                                >(SchemaError::MissingPath));
                                                assert(entry_roots(esd.skip(idx as int)) == Err::<
                                                    Seq<Seq<char>>,
                                                    _,
                                                >(SchemaError::MissingPath));
                                            }
                                            return Err(SchemaError::MissingPath);
                                        },
                                        Some(path_node) => match path_node {
                                            ConfigNode::Object(_) => {
                                                proof {
                                                    assert(entry_root(esd[idx as int]) == Err::<
                                                        Seq<char>,
                                                        _,
                                                    >(SchemaError::PathNotText));
                                                    assert(entry_roots(esd.skip(idx as int))
                                                        == Err::<Seq<Seq<char>>, _>(
                                                        SchemaError::PathNotText,
                                                    ));
                                                }
                                                return Err(SchemaError::PathNotText);
                                            },
                                            ConfigNode::Scalar(raw) => {
                                                let ghost libs0 = libs.deep_view();
                                                libs.push(unescape(raw));
                                                proof {
                                                    lemma_chars_deep(*raw);
                                                    assert(libs.deep_view() =~~= libs0 + seq![
                                                        unescaped(raw@),
                                                    ]);
                                                    assert(esd.skip(idx as int).skip(1) =~= esd.skip(
                                                        idx as int + 1,
                                                    ));
                                                    assert(match entry_roots(
                                                        esd.skip(idx as int + 1),
                                                    ) {
                                                        Ok(rest) => libs0 + (seq![
                                                            unescaped(raw@),
                                                        ] + rest) =~= libs.deep_view() + rest,
                                                        Err(e) => true,
                                                    });
                                                }
                                            },
                                        },
                                    }
                                },
                            }
                            idx += 1;
                        }
                        proof {
                            assert(esd.skip(es.len() as int) =~= Seq::<
                                (Seq<char>, NodeView),
                            >::empty());
                            assert(libs.deep_view() + Seq::<Seq<char>>::empty()
                                =~= libs.deep_view());
                        }
                        let mut roots: Vec<Vec<char>> = Vec::new();
                        roots.push(workshop_cache_path(install));
                        let ghost libsd = libs.deep_view();
                        roots.append(&mut libs);
                        proof {
                            assert(roots.deep_view() =~~= seq![workshop_cache(install@)] + libsd);
                        }
                        Ok(roots)
                    },
                },
            }
        },
    }
}

/// How many library entries a tree registers: the entries under its
/// `libraryfolders` object, none when that key or shape is absent.
pub open spec fn library_entry_count(doc: NodeView) -> nat {
    match doc {
        NodeView::Object(top) => match first_val(top, libraries_key()) {
            Some(NodeView::Object(es)) => es.len(),
            _ => 0,
        },
        _ => 0,
    }
}

proof fn lemma_entry_roots_len(es: Seq<(Seq<char>, NodeView)>)
    ensures
        entry_roots(es) matches Ok(rs) ==> rs.len() == es.len(),
    decreases es.len(),
{
    if es.len() > 0 {
        lemma_entry_roots_len(es.skip(1));
    }
}

/// Law: a resolution that succeeds yields one root for every library
/// entry in the tree, plus the implicit default root.
pub proof fn lemma_resolved_count(doc: NodeView, install: Seq<char>)
    ensures
        resolved_roots(doc, install) matches Ok(rs) ==> rs.len() == library_entry_count(doc) + 1,
{
    match doc {
        NodeView::Object(top) => {
            match first_val(top, libraries_key()) {
                Some(NodeView::Object(es)) => {
                    lemma_entry_roots_len(es);
                },
                _ => {},
            }
        },
        _ => {},
    }
}

proof fn lemma_entry_roots_err(es: Seq<(Seq<char>, NodeView)>, i: int)
    requires
        0 <= i < es.len(),
        entry_root(es[i]) is Err,
    ensures
        entry_roots(es) is Err,
    decreases i,
{
    if i > 0 && !(entry_root(es[0]) is Err) {
        assert(es.skip(1)[i - 1] == es[i]);
        lemma_entry_roots_err(es.skip(1), i - 1);
    }
}

/// Law: a library entry without a `path` field fails the whole
/// resolution with a schema error; no partial list is produced.
pub proof fn lemma_missing_path_fails(doc: NodeView, install: Seq<char>, i: int)
    requires
        doc matches NodeView::Object(top) && (first_val(top, libraries_key()) matches Some(lnode)
            && (lnode matches NodeView::Object(es) && 0 <= i < es.len() && (es[i].1 matches
        NodeView::Object(fields) && first_val(fields, path_key()) is None))),
    ensures
        resolved_roots(doc, install) is Err,
{
    let top = doc->Object_0;
    let lnode = first_val(top, libraries_key())->0;
    let es = lnode->Object_0;
    assert(entry_root(es[i]) is Err);
    lemma_entry_roots_err(es, i);
}

} // verus!
