//! Parser for the key-value configuration format: a document is a
//! sequence of `key value` pairs, a key is a quoted string, and a value
//! is either a quoted string or a `{ ... }` block of further pairs.
//! Whitespace between tokens is insignificant. Quoted strings carry
//! backslash escapes, which the parser validates but leaves in place so
//! that a later unescape step recovers the literal text.

use crate::tree::ConfigNode;
use crate::tree::NodeView;
use crate::tree::lemma_object_view;
use vstd::prelude::*;

verus! {

/// Ways in which a configuration text can violate the grammar.
#[derive(Clone, Copy, Debug, PartialEq, Eq, Structural)]
pub enum ParseError {
    /// A quoted string never reaches its closing quote.
    UnterminatedString,
    /// A backslash is followed by a character that is not an escape.
    InvalidEscape,
    /// A key stands without a value before the end of its block.
    MissingValue,
    /// A character stands where a quoted key was required.
    UnexpectedCharacter,
    /// A `{` block never reaches its closing `}`.
    UnclosedBrace,
    /// A `}` stands with no block open.
    StrayClose,
}

/// The characters that may separate tokens.
pub open spec fn is_space(c: char) -> bool {
    c == ' ' || c == '\t' || c == '\n' || c == '\r'
}

/// The characters that may follow a backslash inside a quoted string.
pub open spec fn is_escapable(c: char) -> bool {
    c == '"' || c == '\\' || c == 'n' || c == 't' || c == 'r'
}

/// Index of the first non-whitespace character at or after `i`.
pub open spec fn skip_ws(s: Seq<char>, i: nat) -> nat
    decreases s.len() - i,
{
    if i < s.len() && is_space(s[i as int]) {
        skip_ws(s, i + 1)
    } else {
        i
    }
}

pub proof fn lemma_skip_ws(s: Seq<char>, i: nat)
    ensures
        i <= skip_ws(s, i),
        i <= s.len() ==> skip_ws(s, i) <= s.len(),
        skip_ws(s, i) < s.len() ==> !is_space(s[skip_ws(s, i) as int]),
    decreases s.len() - i,
{
    if i < s.len() && is_space(s[i as int]) {
        lemma_skip_ws(s, i + 1);
    }
}

/// Scan of a quoted string's contents, starting just after the opening
/// quote. Returns the raw characters between the quotes, escapes kept
/// as written, together with the index just past the closing quote.
pub open spec fn scan_raw(s: Seq<char>, i: nat) -> Result<(Seq<char>, nat), ParseError>
    decreases s.len() - i,
{
    if i >= s.len() {
        Err(ParseError::UnterminatedString)
    } else if s[i as int] == '"' {
        Ok((Seq::empty(), i + 1))
    } else if s[i as int] == '\\' {
        if i + 1 >= s.len() {
            Err(ParseError::UnterminatedString)
        } else if !is_escapable(s[i as int + 1]) {
            Err(ParseError::InvalidEscape)
        } else {
            match scan_raw(s, i + 2) {
                Ok((rest, j)) => Ok((seq![s[i as int], s[i as int + 1]] + rest, j)),
                Err(e) => Err(e),
            }
        }
    } else {
        match scan_raw(s, i + 1) {
            Ok((rest, j)) => Ok((seq![s[i as int]] + rest, j)),
            Err(e) => Err(e),
        }
    }
}

pub proof fn lemma_scan_raw(s: Seq<char>, i: nat)
    ensures
        scan_raw(s, i) matches Ok(p) ==> i < p.1 <= s.len(),
    decreases s.len() - i,
{
    if i >= s.len() {
    } else if s[i as int] == '"' {
    } else if s[i as int] == '\\' {
        if i + 1 < s.len() && is_escapable(s[i as int + 1]) {
            lemma_scan_raw(s, i + 2);
        }
    } else {
        lemma_scan_raw(s, i + 1);
    }
}

/// Parse of a run of `key value` pairs starting at `i`. Stops at a `}`
/// or at the end of the text and returns the pairs together with the
/// index of the stopping point.
pub open spec fn parse_pairs(s: Seq<char>, i: nat) -> Result<
    (Seq<(Seq<char>, NodeView)>, nat),
    ParseError,
>
    decreases s.len() - i,
{
    let iw = skip_ws(s, i);
    proof {
        lemma_skip_ws(s, i);
    }
    if iw >= s.len() || s[iw as int] == '}' {
        Ok((Seq::empty(), iw))
    } else if s[iw as int] == '"' {
        match scan_raw(s, iw + 1) {
            Err(e) => Err(e),
            Ok((key, j)) => {
                proof {
                    lemma_scan_raw(s, iw + 1);
                }
                let jw = skip_ws(s, j);
                proof {
                    lemma_skip_ws(s, j);
                }
                if jw >= s.len() {
                    Err(ParseError::MissingValue)
                } else if s[jw as int] == '"' {
                    match scan_raw(s, jw + 1) {
                        Err(e) => Err(e),
                        Ok((val, m)) => {
                            proof {
                                lemma_scan_raw(s, jw + 1);
                            }
                            match parse_pairs(s, m) {
                                Err(e) => Err(e),
                                Ok((rest, stop)) => Ok(
                                    (seq![(key, NodeView::Scalar(val))] + rest, stop),
                                ),
                            }
                        },
                    }
                } else if s[jw as int] == '{' {
                    match parse_pairs(s, jw + 1) {
                        Err(e) => Err(e),
                        Ok((inner, m)) => {
                            // An inner parse never stops before its own start;
                            // the first bound also carries the termination
                            // argument for the continuation below.
                            if jw < m && m < s.len() && s[m as int] == '}' {
                                match parse_pairs(s, m + 1) {
                                    Err(e) => Err(e),
                                    Ok((rest, stop)) => Ok(
                                        (seq![(key, NodeView::Object(inner))] + rest, stop),
                                    ),
                                }
                            } else {
                                Err(ParseError::UnclosedBrace)
                            }
                        },
                    }
                } else {
                    Err(ParseError::MissingValue)
                }
            },
        }
    } else {
        Err(ParseError::UnexpectedCharacter)
    }
}

/// The whole document: its pairs must reach the end of the text, and
/// its abstraction is the object holding them.
pub open spec fn parse_doc(s: Seq<char>) -> Result<NodeView, ParseError> {
    match parse_pairs(s, 0) {
        Err(e) => Err(e),
        Ok((es, j)) => if j == s.len() {
            Ok(NodeView::Object(es))
        } else {
            Err(ParseError::StrayClose)
        },
    }
}

proof fn lemma_skip_ws_local(s: Seq<char>, t: Seq<char>, i: nat)
    requires
        skip_ws(s, i) < s.len(),
    ensures
        skip_ws(s + t, i) == skip_ws(s, i),
    decreases s.len() - i,
{
    if i < s.len() && is_space(s[i as int]) {
        lemma_skip_ws_local(s, t, i + 1);
    }
}

proof fn lemma_skip_ws_extend(s: Seq<char>, t: Seq<char>, i: nat)
    requires
        i <= s.len(),
        skip_ws(s, i) == s.len(),
    ensures
        skip_ws(s + t, i) == skip_ws(s + t, s.len() as nat),
    decreases s.len() - i,
{
    if i < s.len() {
        lemma_skip_ws_extend(s, t, i + 1);
    }
}

proof fn lemma_scan_raw_local(s: Seq<char>, t: Seq<char>, i: nat)
    requires
        scan_raw(s, i) is Ok,
    ensures
        scan_raw(s + t, i) == scan_raw(s, i),
    decreases s.len() - i,
{
    if i < s.len() && s[i as int] != '"' {
        if s[i as int] == '\\' {
            lemma_scan_raw_local(s, t, i + 2);
        } else {
            lemma_scan_raw_local(s, t, i + 1);
        }
    }
}

proof fn lemma_scan_raw_no_close(s: Seq<char>, i: nat)
    requires
        forall|k: int| i <= k < s.len() ==> s[k] != '"' && s[k] != '\\',
    ensures
        scan_raw(s, i) == Err::<(Seq<char>, nat), _>(ParseError::UnterminatedString),
    decreases s.len() - i,
{
    if i < s.len() {
        lemma_scan_raw_no_close(s, i + 1);
    }
}

proof fn lemma_parse_pairs_local(s: Seq<char>, t: Seq<char>, i: nat)
    requires
        parse_pairs(s, i) matches Ok(p) && p.1 < s.len(),
    ensures
        parse_pairs(s + t, i) == parse_pairs(s, i),
    decreases s.len() - i,
{
    let iw = skip_ws(s, i);
    lemma_skip_ws(s, i);
    lemma_skip_ws_local(s, t, i);
    if iw >= s.len() || s[iw as int] == '}' {
    } else if s[iw as int] == '"' {
        let (key, j) = scan_raw(s, iw + 1)->Ok_0;
        lemma_scan_raw(s, iw + 1);
        lemma_scan_raw_local(s, t, iw + 1);
        let jw = skip_ws(s, j);
        lemma_skip_ws(s, j);
        lemma_skip_ws_local(s, t, j);
        if s[jw as int] == '"' {
            let (val, m) = scan_raw(s, jw + 1)->Ok_0;
            lemma_scan_raw(s, jw + 1);
            lemma_scan_raw_local(s, t, jw + 1);
            lemma_parse_pairs_local(s, t, m);
        } else {
            let (inner, m) = parse_pairs(s, jw + 1)->Ok_0;
            lemma_parse_pairs_local(s, t, jw + 1);
            lemma_parse_pairs_local(s, t, m + 1);
        }
    }
}

proof fn lemma_parse_pairs_extend(s: Seq<char>, t: Seq<char>, i: nat)
    requires
        i <= s.len(),
        parse_pairs(s, i) matches Ok(p) && p.1 == s.len(),
    ensures
        match (parse_pairs(s, i), parse_pairs(s + t, s.len() as nat)) {
            (Ok(p), Ok(q)) => parse_pairs(s + t, i) == Ok::<_, ParseError>((p.0 + q.0, q.1)),
            (Ok(p), Err(e)) => parse_pairs(s + t, i) == Err::<
                (Seq<(Seq<char>, NodeView)>, nat),
                _,
            >(e),
            _ => true,
        },
    decreases s.len() - i,
{
    let u = s + t;
    let iw = skip_ws(s, i);
    lemma_skip_ws(s, i);
    if iw >= s.len() || s[iw as int] == '}' {
        // The run of pairs in `s` ended at the end of `s` itself, so in
        // the longer text the parse goes on from there.
        lemma_skip_ws_extend(s, t, i);
        assert(parse_pairs(u, i) == parse_pairs(u, s.len() as nat));
        assert(match parse_pairs(u, s.len() as nat) {
            Ok(q) => Seq::<(Seq<char>, NodeView)>::empty() + q.0 =~= q.0,
            Err(_) => true,
        });
    } else if s[iw as int] == '"' {
        lemma_skip_ws_local(s, t, i);
        let (key, j) = scan_raw(s, iw + 1)->Ok_0;
        lemma_scan_raw(s, iw + 1);
        lemma_scan_raw_local(s, t, iw + 1);
        let jw = skip_ws(s, j);
        lemma_skip_ws(s, j);
        lemma_skip_ws_local(s, t, j);
        if s[jw as int] == '"' {
            let (val, m) = scan_raw(s, jw + 1)->Ok_0;
            lemma_scan_raw(s, jw + 1);
            lemma_scan_raw_local(s, t, jw + 1);
            let (rest, stop) = parse_pairs(s, m)->Ok_0;
            lemma_parse_pairs_extend(s, t, m);
            assert(match parse_pairs(u, s.len() as nat) {
                Ok(q) => seq![(key, NodeView::Scalar(val))] + (rest + q.0) =~= (seq![
                    (key, NodeView::Scalar(val)),
                ] + rest) + q.0,
                Err(_) => true,
            });
        } else {
            let (inner, m) = parse_pairs(s, jw + 1)->Ok_0;
            lemma_parse_pairs_local(s, t, jw + 1);
            let (rest, stop) = parse_pairs(s, m + 1)->Ok_0;
            lemma_parse_pairs_extend(s, t, m + 1);
            assert(match parse_pairs(u, s.len() as nat) {
                Ok(q) => seq![(key, NodeView::Object(inner))] + (rest + q.0) =~= (seq![
                    (key, NodeView::Object(inner)),
                ] + rest) + q.0,
                Err(_) => true,
            });
        }
    }
}

proof fn lemma_scan_raw_plain(w: Seq<char>, i: nat, body: Seq<char>)
    requires
        i + body.len() < w.len(),
        forall|k: int| 0 <= k < body.len() ==> w[i + k] == body[k] && body[k] != '"' && body[k]
            != '\\',
        w[(i + body.len()) as int] == '"',
    ensures
        scan_raw(w, i) == Ok::<_, ParseError>((body, (i + body.len() + 1) as nat)),
    decreases body.len(),
{
    if body.len() == 0 {
        assert(body =~= Seq::<char>::empty());
    } else {
        assert(w[i as int] == body[0]);
        assert forall|k: int| 0 <= k < body.skip(1).len() implies w[i + 1 + k] == body.skip(1)[k]
            && body.skip(1)[k] != '"' && body.skip(1)[k] != '\\' by {
            assert(body.skip(1)[k] == body[k + 1]);
        }
        lemma_scan_raw_plain(w, i + 1, body.skip(1));
        assert(seq![body[0]] + body.skip(1) =~= body);
    }
}

proof fn lemma_skip_ws_spaces(w: Seq<char>, i: nat, j: nat)
    requires
        i <= j < w.len(),
        forall|k: int| i <= k < j ==> is_space(w[k]),
        !is_space(w[j as int]),
    ensures
        skip_ws(w, i) == j,
    decreases j - i,
{
    if i < j {
        lemma_skip_ws_spaces(w, i + 1, j);
    }
}

/// Law: appending to a well-formed document never yields a partial
/// tree: any failure in the appended text fails the whole parse with
/// that very error.
pub proof fn lemma_appended_failure_propagates(s: Seq<char>, t: Seq<char>)
    requires
        parse_doc(s) is Ok,
    ensures
        parse_pairs(s + t, s.len() as nat) matches Err(e) ==> parse_doc(s + t) == Err::<
            NodeView,
            _,
        >(e),
{
    lemma_parse_pairs_extend(s, t, 0);
}

/// Law: a quoted string that never closes fails the parse with the
/// unterminated-string error, whatever well-formed text stands before
/// it — never a crash and never a silently empty tree.
pub proof fn lemma_unterminated_string_fails(s: Seq<char>, t: Seq<char>)
    requires
        parse_doc(s) is Ok,
        t.len() > 0,
        t[0] == '"',
        forall|k: int| 1 <= k < t.len() ==> t[k] != '"' && t[k] != '\\',
    ensures
        parse_doc(s + t) == Err::<NodeView, _>(ParseError::UnterminatedString),
{
    let u = s + t;
    lemma_parse_pairs_extend(s, t, 0);
    assert(u[s.len() as int] == t[0]);
    assert(skip_ws(u, s.len() as nat) == s.len());
    assert forall|k: int| s.len() + 1 <= k < u.len() implies u[k] != '"' && u[k] != '\\' by {
        assert(u[k] == t[k - s.len()]);
    }
    lemma_scan_raw_no_close(u, s.len() + 1);
    assert(parse_pairs(u, s.len() as nat) == Err::<(Seq<(Seq<char>, NodeView)>, nat), _>(
        ParseError::UnterminatedString,
    ));
}

/// Law: a quoted value that never closes fails the parse with the
/// unterminated-string error — a text cut off inside a pair's value,
/// whatever well-formed document and complete quoted key stand before
/// the cut.
pub proof fn lemma_unterminated_value_fails(
    s: Seq<char>,
    key: Seq<char>,
    ws: Seq<char>,
    v: Seq<char>,
)
    requires
        parse_doc(s) is Ok,
        forall|k: int| 0 <= k < key.len() ==> key[k] != '"' && key[k] != '\\',
        forall|k: int| 0 <= k < ws.len() ==> is_space(ws[k]),
        forall|k: int| 0 <= k < v.len() ==> v[k] != '"' && v[k] != '\\',
    ensures
        parse_doc(s + (seq!['"'] + key + seq!['"'] + ws + seq!['"'] + v)) == Err::<NodeView, _>(
            ParseError::UnterminatedString,
        ),
{
    let t = seq!['"'] + key + seq!['"'] + ws + seq!['"'] + v;
    let u = s + t;
    let b = s.len() as int;
    let kl = key.len() as int;
    let wl = ws.len() as int;
    assert(t.len() == key.len() + ws.len() + v.len() + 3);
    assert(t[0] == '"');
    assert forall|k: int| 0 <= k < kl implies t[1 + k] == key[k] by {}
    assert(t[1 + kl] == '"');
    assert forall|k: int| 0 <= k < wl implies t[2 + kl + k] == ws[k] by {}
    assert(t[2 + kl + wl] == '"');
    assert forall|k: int| 0 <= k < v.len() implies t[3 + kl + wl + k] == v[k] by {}
    lemma_parse_pairs_extend(s, t, 0);
    assert(u[b] == '"');
    assert(skip_ws(u, s.len() as nat) == s.len());
    assert forall|k: int| 0 <= k < kl implies u[b + 1 + k] == key[k] && key[k] != '"' && key[k]
        != '\\' by {
        assert(u[b + 1 + k] == t[1 + k]);
    }
    assert(u[b + 1 + kl] == t[1 + kl]);
    lemma_scan_raw_plain(u, (s.len() + 1) as nat, key);
    let j = (s.len() + key.len() + 2) as nat;
    let jw = (s.len() + key.len() + 2 + ws.len()) as nat;
    assert forall|k: int| j <= k < jw implies is_space(u[k]) by {
        assert(u[k] == t[k - b]);
        assert(t[k - b] == ws[k - b - 2 - kl]);
    }
    assert(u[jw as int] == t[2 + kl + wl]);
    lemma_skip_ws_spaces(u, j, jw);
    assert forall|k: int| jw + 1 <= k < u.len() implies u[k] != '"' && u[k] != '\\' by {
        assert(u[k] == t[k - b]);
        assert(t[k - b] == v[k - b - 3 - kl - wl]);
    }
    lemma_scan_raw_no_close(u, jw + 1);
    assert(parse_pairs(u, s.len() as nat) == Err::<(Seq<(Seq<char>, NodeView)>, nat), _>(
        ParseError::UnterminatedString,
    ));
}

fn skip_ws_exec(s: &Vec<char>, i: usize) -> (r: usize)
    requires
        i <= s.len(),
    ensures
        r == skip_ws(s@, i as nat),
        i <= r <= s.len(),
{
    let mut k: usize = i;
    while k < s.len() && (s[k] == ' ' || s[k] == '\t' || s[k] == '\n' || s[k] == '\r')
        invariant
            i <= k <= s.len(),
            skip_ws(s@, i as nat) == skip_ws(s@, k as nat),
        decreases s.len() - k,
    {
        k += 1;
    }
    proof {
        lemma_skip_ws(s@, i as nat);
    }
    k
}

fn scan_raw_exec(s: &Vec<char>, i: usize) -> (r: Result<(Vec<char>, usize), ParseError>)
    requires
        i <= s.len(),
    ensures
        match r {
            Ok(p) => scan_raw(s@, i as nat) == Ok::<_, ParseError>((p.0@, p.1 as nat)) && i < p.1
                <= s.len(),
            Err(e) => scan_raw(s@, i as nat) == Err::<(Seq<char>, nat), _>(e),
        },
{
    let mut k: usize = i;
    let mut out: Vec<char> = Vec::new();
    loop
        invariant
            i <= k <= s.len(),
            (match scan_raw(s@, k as nat) {
                Ok(p) => scan_raw(s@, i as nat) == Ok::<_, ParseError>((out@ + p.0, p.1)),
                Err(e) => scan_raw(s@, i as nat) == Err::<(Seq<char>, nat), _>(e),
            }),
        decreases s.len() - k,
    {
        if k >= s.len() {
            return Err(ParseError::UnterminatedString);
        }
        let c = s[k];
        if c == '"' {
            proof {
                assert(out@ + Seq::<char>::empty() =~= out@);
                lemma_scan_raw(s@, i as nat);
            }
            return Ok((out, k + 1));
        }
        if c == '\\' {
            if k + 1 >= s.len() {
                return Err(ParseError::UnterminatedString);
            }
            let d = s[k + 1];
            if !(d == '"' || d == '\\' || d == 'n' || d == 't' || d == 'r') {
                return Err(ParseError::InvalidEscape);
            }
            let ghost out0 = out@;
            out.push(c);
            out.push(d);
            proof {
                assert(match scan_raw(s@, (k + 2) as nat) {
                    Ok(p) => out0 + (seq![c, d] + p.0) =~= out@ + p.0,
                    Err(e) => true,
                });
            }
            k += 2;
        } else {
            let ghost out0 = out@;
            out.push(c);
            proof {
                assert(match scan_raw(s@, (k + 1) as nat) {
                    Ok(p) => out0 + (seq![c] + p.0) =~= out@ + p.0,
                    Err(e) => true,
                });
            }
            k += 1;
        }
    }
}

fn parse_pairs_exec(s: &Vec<char>, i: usize) -> (r: Result<
    (Vec<(Vec<char>, ConfigNode)>, usize),
    ParseError,
>)
    requires
        i <= s.len(),
    ensures
        match r {
            Ok(p) => parse_pairs(s@, i as nat) == Ok::<_, ParseError>((p.0.deep_view(), p.1 as nat))
                && i <= p.1 <= s.len(),
            Err(e) => parse_pairs(s@, i as nat) == Err::<(Seq<(Seq<char>, NodeView)>, nat), _>(e),
        },
    decreases s.len() - i,
{
    let iw = skip_ws_exec(s, i);
    if iw >= s.len() || s[iw] == '}' {
        let es: Vec<(Vec<char>, ConfigNode)> = Vec::new();
        proof {
            assert(es.deep_view() =~= Seq::<(Seq<char>, NodeView)>::empty());
        }
        return Ok((es, iw));
    }
    if s[iw] == '"' {
        let (key, j) = (match scan_raw_exec(s, iw + 1) {
            Err(e) => {
                return Err(e);
            },
            Ok(p) => p,
        });
        let jw = skip_ws_exec(s, j);
        if jw >= s.len() {
            return Err(ParseError::MissingValue);
        }
        if s[jw] == '"' {
            let (val, m) = (match scan_raw_exec(s, jw + 1) {
                Err(e) => {
                    return Err(e);
                },
                Ok(p) => p,
            });
            match parse_pairs_exec(s, m) {
                Err(e) => Err(e),
                Ok((mut rest, stop)) => {
                    let ghost rest0 = rest.deep_view();
                    let mut es: Vec<(Vec<char>, ConfigNode)> = Vec::new();
                    es.push((key, ConfigNode::Scalar(val)));
                    es.append(&mut rest);
                    proof {
                        assert(es.deep_view() =~~= seq![(key@, NodeView::Scalar(val@))] + rest0);
                    }
                    Ok((es, stop))
                },
            }
        } else if s[jw] == '{' {
            match parse_pairs_exec(s, jw + 1) {
                Err(e) => Err(e),
                Ok((inner, m)) => {
                    if m < s.len() && s[m] == '}' {
                        match parse_pairs_exec(s, m + 1) {
                            Err(e) => Err(e),
                            Ok((mut rest, stop)) => {
                                let ghost rest0 = rest.deep_view();
                                let node = ConfigNode::Object(inner);
                                proof {
                                    lemma_object_view(node->Object_0);
                                }
                                let mut es: Vec<(Vec<char>, ConfigNode)> = Vec::new();
                                es.push((key, node));
                                es.append(&mut rest);
                                proof {
                                    assert(es.deep_view() =~~= seq![
                                        (key@, node.deep_view()),
                                    ] + rest0);
                                }
                                Ok((es, stop))
                            },
                        }
                    } else {
                        Err(ParseError::UnclosedBrace)
                    }
                },
            }
        } else {
            Err(ParseError::MissingValue)
        }
    } else {
        Err(ParseError::UnexpectedCharacter)
    }
}

/// Parses a configuration text into its node tree, or reports the first
/// way in which the text violates the grammar. A parsed root is always
/// an object; a malformed text is never coerced into an empty tree.
pub fn parse_config(text: &Vec<char>) -> (r: Result<ConfigNode, ParseError>)
    ensures
        match r {
            Ok(n) => parse_doc(text@) == Ok::<_, ParseError>(n.deep_view()) && n is Object,
            Err(e) => parse_doc(text@) == Err::<NodeView, _>(e),
        },
{
    match parse_pairs_exec(text, 0) {
        Err(e) => Err(e),
        Ok((es, j)) => {
            if j == text.len() {
                let node = ConfigNode::Object(es);
                proof {
                    lemma_object_view(node->Object_0);
                }
                Ok(node)
            } else {
                Err(ParseError::StrayClose)
            }
        },
    }
}

} // verus!
