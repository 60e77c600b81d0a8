use vstd::prelude::*;

use crate::error::InsertError;
use crate::params::Params;

verus! {

// ---------------------------------------------------------------------------
// Pattern syntax.
//
// A route pattern is a non-empty string of `/`-separated segments.  A
// segment `{name}` declares a parameter that matches exactly one non-empty
// path segment; a segment `{*name}` declares a catch-all that matches the
// non-empty remainder of the path and must be the final segment.  All other
// segments are static text and may not contain braces.
// ---------------------------------------------------------------------------
/// Characters allowed in a parameter name.
pub open spec fn ok_name_char(c: char) -> bool {
    c != '/' && c != '{' && c != '}' && c != '*'
}

/// A sequence of static text: no braces anywhere.
pub open spec fn is_static_seq(s: Seq<char>) -> bool {
    forall|i: int| 0 <= i < s.len() ==> s[i] != '{' && s[i] != '}'
}

/// `{name}`: a single-segment parameter.
pub open spec fn is_param_seg(s: Seq<char>) -> bool {
    &&& s.len() >= 3
    &&& s[0] == '{'
    &&& s[s.len() - 1] == '}'
    &&& s[1] != '*'
    &&& forall|i: int| 1 <= i < s.len() - 1 ==> ok_name_char(#[trigger] s[i])
}

/// `{*name}`: a trailing catch-all parameter.
pub open spec fn is_catchall_seg(s: Seq<char>) -> bool {
    &&& s.len() >= 4
    &&& s[0] == '{'
    &&& s[1] == '*'
    &&& s[s.len() - 1] == '}'
    &&& forall|i: int| 2 <= i < s.len() - 1 ==> ok_name_char(#[trigger] s[i])
}

/// The name bound by a parameter segment.
pub open spec fn param_name(s: Seq<char>) -> Seq<char> {
    s.subrange(1, s.len() - 1)
}

/// The name bound by a catch-all segment.
pub open spec fn catchall_name(s: Seq<char>) -> Seq<char> {
    s.subrange(2, s.len() - 1)
}

/// Length of the leading segment of `s`: the index of the first `/`, or the
/// whole length if `s` has no `/`.
pub open spec fn seg_end(s: Seq<char>) -> int
    decreases s.len(),
{
    if s.len() == 0 {
        0
    } else if s[0] == '/' {
        0
    } else {
        1 + seg_end(s.drop_first())
    }
}

pub(crate) proof fn lemma_seg_end(s: Seq<char>)
    ensures
        0 <= seg_end(s) <= s.len(),
        forall|i: int| 0 <= i < seg_end(s) ==> s[i] != '/',
        seg_end(s) < s.len() ==> s[seg_end(s)] == '/',
    decreases s.len(),
{
    if s.len() == 0 || s[0] == '/' {
    } else {
        lemma_seg_end(s.drop_first());
        assert forall|i: int| 0 <= i < seg_end(s) implies s[i] != '/' by {
            if i >= 1 {
                assert(s.drop_first()[i - 1] == s[i]);
            }
        }
        if seg_end(s) < s.len() {
            assert(s.drop_first()[seg_end(s) - 1] == s[seg_end(s)]);
        }
    }
}

pub(crate) proof fn lemma_seg_end_is(s: Seq<char>, e: int)
    requires
        0 <= e <= s.len(),
        forall|i: int| 0 <= i < e ==> s[i] != '/',
        e < s.len() ==> s[e] == '/',
    ensures
        seg_end(s) == e,
    decreases s.len(),
{
    if s.len() == 0 {
    } else if s[0] == '/' {
        assert(e == 0);
    } else {
        assert(e >= 1);
        lemma_seg_end_is(s.drop_first(), e - 1);
    }
}

/// Validity of the part of a pattern that starts at a segment boundary.
pub open spec fn valid_segs(p: Seq<char>) -> bool
    decreases p.len(),
    via valid_segs_dec
{
    let e = seg_end(p);
    let seg = p.subrange(0, e);
    &&& (is_static_seq(seg) || is_param_seg(seg) || (is_catchall_seg(seg) && e == p.len()))
    &&& (e < p.len() ==> valid_segs(p.subrange(e + 1, p.len() as int)))
}

#[via_fn]
proof fn valid_segs_dec(p: Seq<char>) {
    lemma_seg_end(p);
}

/// A well-formed route pattern.  A pattern may bind the same name in two
/// segments (`/{a}/x/{a}`); a match then reports one pair per segment, in
/// path order, and `Params::get` returns the leftmost binding.
pub open spec fn valid_pattern(p: Seq<char>) -> bool {
    p.len() > 0 && valid_segs(p)
}

// ---------------------------------------------------------------------------
// The tree.
// ---------------------------------------------------------------------------
/// A node of the routing tree.  `prefix` is the portion of a pattern this
/// node consumes relative to its parent: static text, or a whole wildcard
/// segment.  `priority` counts the routes registered in this subtree.
pub struct Node<T> {
    pub prefix: String,
    pub value: Option<T>,
    pub priority: u32,
    pub children: Vec<Node<T>>,
}

/// Number of routes stored in the subtree rooted at `n`.
pub open spec fn count<T>(n: Node<T>) -> nat
    decreases n,
{
    (if n.value is Some {
        1nat
    } else {
        0nat
    }) + count_seq(n.children@)
}

/// Number of routes stored in a list of subtrees.
pub open spec fn count_seq<T>(cs: Seq<Node<T>>) -> nat
    decreases cs,
{
    if cs.len() == 0 {
        0nat
    } else {
        count(cs[0]) + count_seq(cs.drop_first())
    }
}

/// The value registered under the remaining pattern `pat` in the subtree of
/// `n`, with `n`'s own prefix already consumed.
pub open spec fn sub_route<T>(n: Node<T>, pat: Seq<char>) -> Option<T>
    decreases n, 1int,
{
    if pat.len() == 0 {
        n.value
    } else {
        children_route(n.children@, pat)
    }
}

/// Dispatches `pat` to the first child whose prefix starts it.
pub open spec fn children_route<T>(cs: Seq<Node<T>>, pat: Seq<char>) -> Option<T>
    decreases cs, 0int,
{
    if cs.len() == 0 {
        None
    } else if cs[0].prefix@.is_prefix_of(pat) {
        sub_route(cs[0], pat.skip(cs[0].prefix@.len() as int))
    } else {
        children_route(cs.drop_first(), pat)
    }
}

/// The value registered under `pat` at node `n`, `n`'s prefix included.
pub open spec fn node_route<T>(n: Node<T>, pat: Seq<char>) -> Option<T> {
    if n.prefix@.is_prefix_of(pat) {
        sub_route(n, pat.skip(n.prefix@.len() as int))
    } else {
        None
    }
}

/// A prefix that dispatches like static text: it never opens a wildcard.
pub open spec fn brace_free(s: Seq<char>) -> bool {
    forall|i: int| 0 <= i < s.len() ==> s[i] != '{'
}

/// Structural soundness of one child seen from its parent.
pub open spec fn child_ok<T>(c: Node<T>) -> bool {
    &&& c.prefix@.len() > 0
    &&& (brace_free(c.prefix@) || is_param_seg(c.prefix@) || (is_catchall_seg(c.prefix@)
        && c.value is Some && c.children@.len() == 0))
}

/// Well-formedness of a subtree: children are classified and non-empty, no
/// two children share a first character, a catch-all child is an only
/// child, children of a parameter node continue with `/`, and every
/// priority equals the route count of its subtree.
///
/// Sibling order is deliberately not significant here: matching tries all
/// static children and the wildcard child last, so the priority-descending
/// sibling order that a search without backtracking would need is not
/// maintained, and `priority` serves only the audit.
pub open spec fn wf_node<T>(n: Node<T>) -> bool
    decreases n,
{
    &&& n.priority as nat == count(n)
    &&& (forall|i: int| 0 <= i < n.children@.len() ==> child_ok(#[trigger] n.children@[i]))
    &&& (forall|i: int, j: int|
        0 <= i < j < n.children@.len() ==> (#[trigger] n.children@[i].prefix@[0])
            != (#[trigger] n.children@[j].prefix@[0]))
    &&& (forall|i: int|
        0 <= i < n.children@.len() && is_catchall_seg(#[trigger] n.children@[i].prefix@)
            ==> n.children@.len() == 1)
    &&& (is_param_seg(n.prefix@) ==> forall|i: int|
        0 <= i < n.children@.len() ==> (#[trigger] n.children@[i].prefix@)[0] == '/')
    &&& (forall|i: int| 0 <= i < n.children@.len() ==> wf_node(#[trigger] n.children@[i]))
}

// ---------------------------------------------------------------------------
// Executable helpers on strings, all character-indexed.
// ---------------------------------------------------------------------------
/// Longest common extension of `prefix` against `pat` starting at `pos`.
pub(crate) fn lcp_from(prefix: &str, pat: &str, pos: usize) -> (l: usize)
    requires
        pos <= pat@.len(),
    ensures
        l <= prefix@.len(),
        pos + l <= pat@.len(),
        forall|k: int| 0 <= k < l ==> prefix@[k] == pat@[pos + k],
        l < prefix@.len() && pos + l < pat@.len() ==> prefix@[l as int] != pat@[pos + l],
{
    let plen = prefix.unicode_len();
    let n = pat.unicode_len();
    let mut l: usize = 0;
    while l < plen && pos + l < n
        invariant
            plen == prefix@.len(),
            n == pat@.len(),
            pos <= n,
            l <= plen,
            pos + l <= n,
            forall|k: int| 0 <= k < l ==> prefix@[k] == pat@[pos + k],
        decreases plen - l,
    {
        if prefix.get_char(l) != pat.get_char(pos + l) {
            return l;
        }
        l = l + 1;
    }
    l
}

/// Does `prefix` start the remainder of `pat` at `pos`?
pub(crate) fn is_prefix_at(prefix: &str, pat: &str, pos: usize) -> (b: bool)
    requires
        pos <= pat@.len(),
    ensures
        b == prefix@.is_prefix_of(pat@.skip(pos as int)),
{
    let plen = prefix.unicode_len();
    let l = lcp_from(prefix, pat, pos);
    let b = l == plen;
    proof {
        if b {
            assert(prefix@ =~= pat@.skip(pos as int).subrange(0, prefix@.len() as int));
        } else {
            if prefix@.is_prefix_of(pat@.skip(pos as int)) {
                assert(pat@.skip(pos as int).len() >= prefix@.len());
                assert(prefix@[l as int] == pat@.skip(pos as int).subrange(
                    0,
                    prefix@.len() as int,
                )[l as int]);
                assert(prefix@[l as int] == pat@[pos + l]);
                assert(false);
            }
        }
    }
    b
}

/// Copies the character range `[from, to)` of `s` into a fresh string.
pub(crate) fn sub_string(s: &str, from: usize, to: usize) -> (r: String)
    requires
        from <= to <= s@.len(),
    ensures
        r@ == s@.subrange(from as int, to as int),
{
    String::from_str(s.substring_char(from, to))
}

/// Index of the first `/` at or after `pos`, or the length of `pat`.
pub(crate) fn find_slash(pat: &str, pos: usize) -> (e: usize)
    requires
        pos <= pat@.len(),
    ensures
        pos <= e <= pat@.len(),
        forall|k: int| pos <= k < e ==> pat@[k] != '/',
        e < pat@.len() ==> pat@[e as int] == '/',
{
    let n = pat.unicode_len();
    let mut e: usize = pos;
    while e < n
        invariant
            n == pat@.len(),
            pos <= e <= n,
            forall|k: int| pos <= k < e ==> pat@[k] != '/',
        decreases n - e,
    {
        if pat.get_char(e) == '/' {
            return e;
        }
        e = e + 1;
    }
    e
}

/// Index of the first `{` at or after `pos`, or the length of `pat`.
pub(crate) fn find_brace(pat: &str, pos: usize) -> (e: usize)
    requires
        pos <= pat@.len(),
    ensures
        pos <= e <= pat@.len(),
        forall|k: int| pos <= k < e ==> pat@[k] != '{',
        e < pat@.len() ==> pat@[e as int] == '{',
{
    let n = pat.unicode_len();
    let mut e: usize = pos;
    while e < n
        invariant
            n == pat@.len(),
            pos <= e <= n,
            forall|k: int| pos <= k < e ==> pat@[k] != '{',
        decreases n - e,
    {
        if pat.get_char(e) == '{' {
            return e;
        }
        e = e + 1;
    }
    e
}

// ---------------------------------------------------------------------------
// Pattern validation.
// ---------------------------------------------------------------------------
/// Checks validity of the pattern tail that starts at segment boundary
/// `pos`.
fn valid_segs_from(pat: &str, pos: usize) -> (b: bool)
    requires
        pos <= pat@.len(),
    ensures
        b == valid_segs(pat@.skip(pos as int)),
    decreases pat@.len() - pos,
{
    let n = pat.unicode_len();
    let e = find_slash(pat, pos);
    let ghost tail = pat@.skip(pos as int);
    proof {
        lemma_seg_end_is(tail, e - pos);
        assert(tail.subrange(0, e - pos) =~= pat@.subrange(pos as int, e as int));
    }
    let ghost seg = pat@.subrange(pos as int, e as int);
    let seg_ok: bool = if e == pos {
        // The empty segment is static.
        true
    } else if pat.get_char(pos) != '{' {
        let bad = scan_brace(pat, pos, e);
        proof {
            if !bad {
                assert(forall|i: int| 0 <= i < seg.len() ==> seg[i] != '{' && seg[i] != '}');
            } else {
                let k = choose|k: int| pos <= k < e && (pat@[k] == '{' || pat@[k] == '}');
                assert(seg[k - pos] == pat@[k]);
                assert(!is_static_seq(seg));
                assert(seg[0] == pat@[pos as int]);
                assert(!is_param_seg(seg) && !is_catchall_seg(seg));
            }
        }
        !bad
    } else if e - pos >= 4 && pat.get_char(pos + 1) == '*' {
        // Candidate catch-all segment.
        let close_ok = pat.get_char(e - 1) == '}';
        let name_ok = scan_name(pat, pos + 2, e - 1);
        let last = e == n;
        proof {
            assert(seg[0] == '{' && seg[1] == '*');
            assert(seg.len() >= 4);
            assert(!is_static_seq(seg));
            assert(!is_param_seg(seg));
            if close_ok && name_ok {
                assert(seg[seg.len() - 1] == pat@[e - 1]);
                assert(forall|i: int|
                    2 <= i < seg.len() - 1 ==> ok_name_char(#[trigger] seg[i]));
                assert(is_catchall_seg(seg));
            } else if close_ok {
                assert(pos + 2 < e - 1);
                let k = choose|k: int| pos + 2 <= k < e - 1 && !ok_name_char(pat@[k]);
                assert(seg[k - pos] == pat@[k]);
                assert(!is_catchall_seg(seg));
            } else {
                assert(seg[seg.len() - 1] == pat@[e - 1]);
                assert(!is_catchall_seg(seg));
            }
        }
        close_ok && name_ok && last
    } else if e - pos >= 3 && pat.get_char(pos + 1) != '*' {
        // Candidate parameter segment.
        let close_ok = pat.get_char(e - 1) == '}';
        let name_ok = scan_name(pat, pos + 1, e - 1);
        proof {
            assert(seg[0] == '{' && seg[1] != '*');
            assert(seg.len() >= 3);
            assert(!is_static_seq(seg));
            assert(!is_catchall_seg(seg));
            if close_ok && name_ok {
                assert(seg[seg.len() - 1] == pat@[e - 1]);
                assert(forall|i: int|
                    1 <= i < seg.len() - 1 ==> ok_name_char(#[trigger] seg[i]));
                assert(is_param_seg(seg));
            } else if close_ok {
                assert(pos + 1 < e - 1);
                let k = choose|k: int| pos + 1 <= k < e - 1 && !ok_name_char(pat@[k]);
                assert(seg[k - pos] == pat@[k]);
                assert(!is_param_seg(seg));
            } else {
                assert(seg[seg.len() - 1] == pat@[e - 1]);
                assert(!is_param_seg(seg));
            }
        }
        close_ok && name_ok
    } else {
        proof {
            assert(seg[0] == '{');
            assert(!is_static_seq(seg));
            if seg.len() >= 2 && seg[1] == '*' {
                assert(!is_param_seg(seg));
                assert(!is_catchall_seg(seg));
            } else {
                assert(!is_catchall_seg(seg));
                assert(!is_param_seg(seg));
            }
        }
        false
    };
    if e == n {
        proof {
            assert(seg_end(tail) == tail.len());
        }
        seg_ok
    } else {
        if !seg_ok {
            return false;
        }
        let rest = valid_segs_from(pat, e + 1);
        proof {
            assert(tail.subrange(seg_end(tail) + 1, tail.len() as int) =~= pat@.skip(e + 1));
        }
        rest
    }
}

/// Scans `[from, to)` for `{` or `}`; true when one occurs.
fn scan_brace(pat: &str, from: usize, to: usize) -> (bad: bool)
    requires
        from <= to <= pat@.len(),
    ensures
        bad == exists|k: int| from <= k < to && (pat@[k] == '{' || pat@[k] == '}'),
{
    let mut i: usize = from;
    while i < to
        invariant
            from <= i <= to,
            to <= pat@.len(),
            forall|k: int| from <= k < i ==> pat@[k] != '{' && pat@[k] != '}',
        decreases to - i,
    {
        let c = pat.get_char(i);
        if c == '{' || c == '}' {
            return true;
        }
        i = i + 1;
    }
    false
}

/// Checks that `[from, to)` is a non-empty run of name characters.
fn scan_name(pat: &str, from: usize, to: usize) -> (ok: bool)
    requires
        from <= pat@.len(),
        to <= pat@.len(),
    ensures
        ok == (from < to && forall|k: int| from <= k < to ==> ok_name_char(#[trigger] pat@[k])),
{
    if from >= to {
        return false;
    }
    let mut i: usize = from;
    while i < to
        invariant
            from <= i <= to,
            to <= pat@.len(),
            forall|k: int| from <= k < i ==> ok_name_char(#[trigger] pat@[k]),
        decreases to - i,
    {
        let c = pat.get_char(i);
        if c == '/' || c == '{' || c == '}' || c == '*' {
            return false;
        }
        i = i + 1;
    }
    true
}

/// Checks that `pat` is a well-formed route pattern.
pub(crate) fn check_pattern(pat: &str) -> (b: bool)
    ensures
        b == valid_pattern(pat@),
{
    if pat.unicode_len() == 0 {
        return false;
    }
    let r = valid_segs_from(pat, 0);
    proof {
        assert(pat@.skip(0) =~= pat@);
    }
    r
}

// ---------------------------------------------------------------------------
// Where wildcards can sit in a valid pattern.
// ---------------------------------------------------------------------------
/// An opening brace at `m` sits at a segment boundary and opens a whole,
/// well-formed wildcard segment.
pub open spec fn wild_here(p: Seq<char>, m: int) -> bool {
    &&& (m == 0 || p[m - 1] == '/')
    &&& {
        let e = m + seg_end(p.skip(m));
        is_param_seg(p.subrange(m, e)) || (is_catchall_seg(p.subrange(m, e)) && e == p.len())
    }
}

/// Every opening brace of the pattern opens a whole wildcard segment.
pub open spec fn braces_ok(p: Seq<char>) -> bool {
    forall|m: int| 0 <= m < p.len() && #[trigger] p[m] == '{' ==> wild_here(p, m)
}

/// A wildcard segment contains no `/`, and `{` only as its first character.
pub(crate) proof fn lemma_wild_chars(s: Seq<char>)
    requires
        is_param_seg(s) || is_catchall_seg(s),
    ensures
        forall|k: int| 0 <= k < s.len() ==> s[k] != '/',
        forall|k: int| 1 <= k < s.len() ==> s[k] != '{',
{
    assert forall|k: int| 0 <= k < s.len() implies s[k] != '/' by {
        if k == 0 {
        } else if k == s.len() - 1 {
        } else if k == 1 && is_catchall_seg(s) {
        } else {
            assert(ok_name_char(s[k]));
        }
    }
    assert forall|k: int| 1 <= k < s.len() implies s[k] != '{' by {
        if k == s.len() - 1 {
        } else if k == 1 && is_catchall_seg(s) {
        } else {
            assert(ok_name_char(s[k]));
        }
    }
}

pub(crate) proof fn lemma_braces_ok(p: Seq<char>)
    requires
        valid_segs(p),
    ensures
        braces_ok(p),
    decreases p.len(),
{
    lemma_seg_end(p);
    let e = seg_end(p);
    let seg = p.subrange(0, e);
    if e < p.len() {
        lemma_braces_ok(p.subrange(e + 1, p.len() as int));
    }
    assert forall|m: int| 0 <= m < p.len() && #[trigger] p[m] == '{' implies wild_here(p, m) by {
        if m < e {
            assert(seg[m] == p[m]);
            assert(!is_static_seq(seg) || seg[m] != '{');
            assert(is_param_seg(seg) || is_catchall_seg(seg));
            lemma_wild_chars(seg);
            assert(m == 0);
            assert(p.skip(0) =~= p);
            assert(p.subrange(0, e) == seg);
        } else if m == e {
            assert(p[e] == '/');
            assert(false);
        } else {
            let tail = p.subrange(e + 1, p.len() as int);
            let m2 = m - e - 1;
            assert(tail[m2] == p[m]);
            assert(wild_here(tail, m2));
            // carry the facts from the tail back to p
            assert(tail.skip(m2) =~= p.skip(m));
            lemma_seg_end(tail.skip(m2));
            lemma_seg_end(p.skip(m));
            let e2 = m2 + seg_end(tail.skip(m2));
            assert(seg_end(tail.skip(m2)) == seg_end(p.skip(m)));
            assert(tail.subrange(m2, e2) =~= p.subrange(m, m + seg_end(p.skip(m))));
            if m2 == 0 {
                assert(p[m - 1] == p[e]);
            } else {
                assert(tail[m2 - 1] == p[m - 1]);
            }
            assert(e2 == tail.len() <==> m + seg_end(p.skip(m)) == p.len());
        }
    }
}

// ---------------------------------------------------------------------------
// Sequence lemmas for route counts and child dispatch.
// ---------------------------------------------------------------------------
pub(crate) proof fn lemma_count_seq_update<T>(cs: Seq<Node<T>>, i: int, c: Node<T>)
    requires
        0 <= i < cs.len(),
    ensures
        count_seq(cs.update(i, c)) + count(cs[i]) == count_seq(cs) + count(c),
    decreases cs.len(),
{
    if i == 0 {
        assert(cs.update(0, c).drop_first() =~= cs.drop_first());
        assert(cs.update(0, c)[0] == c);
    } else {
        assert(cs.update(i, c).drop_first() =~= cs.drop_first().update(i - 1, c));
        assert(cs.update(i, c)[0] == cs[0]);
        lemma_count_seq_update(cs.drop_first(), i - 1, c);
    }
}

pub(crate) proof fn lemma_count_seq_push<T>(cs: Seq<Node<T>>, c: Node<T>)
    ensures
        count_seq(cs.push(c)) == count_seq(cs) + count(c),
    decreases cs.len(),
{
    if cs.len() == 0 {
        assert(cs.push(c)[0] == c);
        assert(cs.push(c).drop_first() =~= Seq::<Node<T>>::empty());
        assert(count_seq(Seq::<Node<T>>::empty()) == 0nat);
        assert(count_seq(cs) == 0nat);
    } else {
        assert(cs.push(c).drop_first() =~= cs.drop_first().push(c));
        assert(cs.push(c)[0] == cs[0]);
        lemma_count_seq_push(cs.drop_first(), c);
    }
}

pub(crate) proof fn lemma_count_seq_remove<T>(cs: Seq<Node<T>>, i: int)
    requires
        0 <= i < cs.len(),
    ensures
        count_seq(cs.remove(i)) + count(cs[i]) == count_seq(cs),
    decreases cs.len(),
{
    if i == 0 {
        assert(cs.remove(0) =~= cs.drop_first());
    } else {
        assert(cs.remove(i).drop_first() =~= cs.drop_first().remove(i - 1));
        assert(cs.remove(i)[0] == cs[0]);
        lemma_count_seq_remove(cs.drop_first(), i - 1);
    }
}

pub(crate) proof fn lemma_count_seq_ge<T>(cs: Seq<Node<T>>, i: int)
    requires
        0 <= i < cs.len(),
    ensures
        count_seq(cs) >= count(cs[i]),
    decreases cs.len(),
{
    if i > 0 {
        lemma_count_seq_ge(cs.drop_first(), i - 1);
    }
}

/// First characters of non-empty child prefixes are pairwise distinct.
pub open spec fn distinct_heads<T>(cs: Seq<Node<T>>) -> bool {
    &&& (forall|j: int| 0 <= j < cs.len() ==> (#[trigger] cs[j].prefix@).len() > 0)
    &&& (forall|j: int, k: int|
        0 <= j < k < cs.len() ==> (#[trigger] cs[j].prefix@[0]) != (#[trigger] cs[k].prefix@[0]))
}

/// With distinct heads, dispatch on a pattern whose first character matches
/// child `i` reaches exactly child `i`.
pub(crate) proof fn lemma_cr_at<T>(cs: Seq<Node<T>>, i: int, pat: Seq<char>)
    requires
        distinct_heads(cs),
        0 <= i < cs.len(),
        pat.len() > 0,
        pat[0] == cs[i].prefix@[0],
    ensures
        children_route(cs, pat) == node_route(cs[i], pat),
    decreases cs.len(),
{
    if i == 0 {
        if !cs[0].prefix@.is_prefix_of(pat) {
            assert(distinct_heads(cs.drop_first()));
            lemma_cr_none(cs.drop_first(), pat);
        }
    } else {
        if cs[0].prefix@.is_prefix_of(pat) {
            assert(cs[0].prefix@[0] == pat.subrange(0, cs[0].prefix@.len() as int)[0]);
            assert(false);
        }
        assert(distinct_heads(cs.drop_first()));
        lemma_cr_at(cs.drop_first(), i - 1, pat);
    }
}

/// With distinct heads, a pattern whose first character matches no child
/// dispatches nowhere.
pub(crate) proof fn lemma_cr_none<T>(cs: Seq<Node<T>>, pat: Seq<char>)
    requires
        forall|j: int| 0 <= j < cs.len() ==> (#[trigger] cs[j].prefix@).len() > 0,
        pat.len() == 0 || forall|j: int|
            0 <= j < cs.len() ==> pat[0] != (#[trigger] cs[j].prefix@)[0],
    ensures
        children_route(cs, pat) == None::<T>,
    decreases cs.len(),
{
    if cs.len() > 0 {
        if cs[0].prefix@.is_prefix_of(pat) {
            assert(pat.len() >= cs[0].prefix@.len());
            assert(cs[0].prefix@[0] == pat.subrange(0, cs[0].prefix@.len() as int)[0]);
            assert(false);
        }
        lemma_cr_none(cs.drop_first(), pat);
    }
}

/// A pass-through node with a single child routes exactly as the node with
/// the two prefixes concatenated.
pub(crate) proof fn lemma_passthrough<T>(outer: Node<T>, inner: Node<T>, c: Node<T>, p: Seq<char>)
    requires
        outer.value is None,
        outer.children@ == seq![inner],
        outer.prefix@.len() > 0,
        inner.prefix@.len() > 0,
        c.prefix@ == outer.prefix@ + inner.prefix@,
        c.value == inner.value,
        c.children == inner.children,
    ensures
        node_route(c, p) == node_route(outer, p),
{
    let a = outer.prefix@;
    let b = inner.prefix@;
    if a.is_prefix_of(p) {
        let q = p.skip(a.len() as int);
        if q.len() == 0 {
            assert(c.prefix@.len() > p.len());
            assert(!c.prefix@.is_prefix_of(p));
        } else {
            assert(outer.children@[0] == inner);
            if b.is_prefix_of(q) {
                let r = q.skip(b.len() as int);
                assert(c.prefix@.is_prefix_of(p)) by {
                    assert(forall|k: int|
                        0 <= k < a.len() ==> a[k] == p.subrange(0, a.len() as int)[k]);
                    assert(forall|k: int|
                        0 <= k < b.len() ==> b[k] == q.subrange(0, b.len() as int)[k]);
                    assert(c.prefix@ =~= p.subrange(0, c.prefix@.len() as int));
                }
                assert(p.skip(c.prefix@.len() as int) =~= r);
                assert(sub_route(c, r) == sub_route(inner, r)) by {
                    if r.len() != 0 {
                        assert(c.children@ == inner.children@);
                    }
                }
            } else {
                if c.prefix@.is_prefix_of(p) {
                    assert(forall|k: int|
                        0 <= k < c.prefix@.len() ==> c.prefix@[k] == p.subrange(
                            0,
                            c.prefix@.len() as int,
                        )[k]);
                    assert(forall|k: int| 0 <= k < c.prefix@.len() ==> c.prefix@[k] == p[k]);
                    assert(forall|k: int|
                        0 <= k < b.len() ==> (a + b)[a.len() + k] == b[k]);
                    assert(forall|k: int| 0 <= k < b.len() ==> q[k] == p[a.len() + k]);
                    assert(b =~= q.subrange(0, b.len() as int));
                    assert(false);
                }
                assert(children_route(outer.children@, q) == None::<T>) by {
                    assert(outer.children@.drop_first() =~= Seq::<Node<T>>::empty());
                    assert(children_route(Seq::<Node<T>>::empty(), q) == None::<T>);
                }
            }
        }
    } else {
        if c.prefix@.is_prefix_of(p) {
            assert(forall|k: int|
                0 <= k < c.prefix@.len() ==> c.prefix@[k] == p.subrange(
                    0,
                    c.prefix@.len() as int,
                )[k]);
            assert(a =~= p.subrange(0, a.len() as int));
            assert(false);
        }
    }
}

// ---------------------------------------------------------------------------
// Priority audit.
// ---------------------------------------------------------------------------
/// Recomputes the route count of the subtree of `n` and compares it with
/// the recorded priorities, bottom-up.  On a well-formed tree the audit
/// always confirms the recorded count.
pub(crate) fn audit_node<T>(n: &Node<T>) -> (r: Result<u32, (u32, u32)>)
    requires
        wf_node(*n),
    ensures
        r == Ok::<u32, (u32, u32)>(n.priority),
        n.priority as nat == count(*n),
    decreases *n,
{
    let mut total: u32 = if n.value.is_some() {
        1
    } else {
        0
    };
    let mut i: usize = 0;
    proof {
        assert(n.children@.skip(0) =~= n.children@);
    }
    while i < n.children.len()
        invariant
            wf_node(*n),
            i <= n.children@.len(),
            total as nat + count_seq(n.children@.skip(i as int)) == count(*n),
        decreases n.children@.len() - i,
    {
        let sub = match audit_node(&n.children[i]) {
            Ok(c) => c,
            Err(e) => {
                proof {
                    assert(false);
                }
                return Err(e);
            },
        };
        proof {
            assert(n.children@.skip(i as int).drop_first() =~= n.children@.skip(i as int + 1));
            assert(count_seq(n.children@.skip(i as int)) == count(n.children@[i as int])
                + count_seq(n.children@.skip(i as int + 1)));
        }
        total = total + sub;
        i = i + 1;
    }
    proof {
        assert(n.children@.skip(n.children@.len() as int) =~= Seq::<Node<T>>::empty());
    }
    if total == n.priority {
        Ok(total)
    } else {
        proof {
            assert(false);
        }
        Err((n.priority, total))
    }
}

// ---------------------------------------------------------------------------
// Insertion.
// ---------------------------------------------------------------------------
/// Finds the child whose prefix starts with `c`; with distinct heads there
/// is at most one.
fn find_child<T>(children: &Vec<Node<T>>, c: char) -> (r: Option<usize>)
    requires
        forall|j: int| 0 <= j < children@.len() ==> (#[trigger] children@[j].prefix@).len() > 0,
    ensures
        r matches Some(i) ==> i < children@.len() && children@[i as int].prefix@[0] == c,
        r is None ==> forall|j: int|
            0 <= j < children@.len() ==> (#[trigger] children@[j].prefix@)[0] != c,
{
    let n = children.len();
    let mut i: usize = 0;
    while i < n
        invariant
            n == children@.len(),
            i <= n,
            forall|j: int| 0 <= j < children@.len() ==> (#[trigger] children@[j].prefix@).len()
                > 0,
            forall|j: int| 0 <= j < i ==> (#[trigger] children@[j].prefix@)[0] != c,
        decreases n - i,
    {
        if children[i].prefix.as_str().get_char(0) == c {
            return Some(i);
        }
        i = i + 1;
    }
    None
}

/// Builds the chain of fresh nodes that stores the pattern tail starting at
/// `pos`, with `value` at its end.
fn build_rest<T>(pat: &str, pos: usize, value: T) -> (node: Node<T>)
    requires
        valid_pattern(pat@),
        braces_ok(pat@),
        pos < pat@.len(),
    ensures
        wf_node(node),
        child_ok(node),
        node.prefix@.len() > 0,
        node.prefix@[0] == pat@[pos as int],
        node.prefix@.is_prefix_of(pat@.skip(pos as int)),
        count(node) == 1,
        forall|q: Seq<char>| #![auto]
            node_route(node, q) == (if q == pat@.skip(pos as int) {
                Some(value)
            } else {
                None::<T>
            }),
    decreases pat@.len() - pos,
{
    let n = pat.unicode_len();
    let c0 = pat.get_char(pos);
    if c0 != '{' {
        // A run of static text, up to the next wildcard or the end.
        let w = find_brace(pat, pos);
        proof {
            assert(w > pos);
        }
        let head = sub_string(pat, pos, w);
        let ghost hd = pat@.subrange(pos as int, w as int);
        proof {
            assert(hd.is_prefix_of(pat@.skip(pos as int))) by {
                assert(hd =~= pat@.skip(pos as int).subrange(0, (w - pos) as int));
            }
        }
        if w == n {
            let node = Node { prefix: head, value: Some(value), priority: 1, children: Vec::new() };
            proof {
                assert(count(node) == 1);
                assert(brace_free(node.prefix@));
                assert(pat@.skip(pos as int) =~= hd);
                assert forall|q: Seq<char>| #![auto]
                    node_route(node, q) == (if q == pat@.skip(pos as int) {
                        Some(value)
                    } else {
                        None::<T>
                    }) by {
                    build_static_route_fact(node, hd, q, pat@.skip(pos as int));
                }
            }
            node
        } else {
            let ghost gv = value;
            let child = build_rest(pat, w, value);
            let mut kids: Vec<Node<T>> = Vec::new();
            kids.push(child);
            let node = Node { prefix: head, value: None, priority: 1, children: kids };
            proof {
                assert(node.children@ == seq![child]);
                assert(count_seq(node.children@) == count(child) + count_seq(
                    node.children@.drop_first(),
                )) by {
                    assert(node.children@[0] == child);
                }
                assert(node.children@.drop_first() =~= Seq::<Node<T>>::empty());
                assert(count(node) == 1);
                assert(brace_free(node.prefix@));
                assert(wf_node(node)) by {
                    assert(forall|i: int|
                        0 <= i < node.children@.len() ==> #[trigger] node.children@[i] == child);
                }
                assert(pat@.skip(pos as int) =~= hd + pat@.skip(w as int));
                assert forall|q: Seq<char>| #![auto]
                    node_route(node, q) == (if q == pat@.skip(pos as int) {
                        Some(value)
                    } else {
                        None::<T>
                    }) by {
                    build_chain_route_fact(node, child, hd, q, pat@.skip(w as int), Some(gv));
                }
            }
            node
        }
    } else {
        // A whole wildcard segment.
        let e = find_slash(pat, pos);
        proof {
            lemma_seg_end_is(pat@.skip(pos as int), e - pos);
            assert(pat@[pos as int] == '{');
            assert(wild_here(pat@, pos as int));
            assert(pat@.subrange(pos as int, e as int) =~= pat@.skip(pos as int).subrange(
                0,
                e - pos,
            ));
        }
        let ghost seg = pat@.subrange(pos as int, e as int);
        let head = sub_string(pat, pos, e);
        proof {
            assert(seg.is_prefix_of(pat@.skip(pos as int))) by {
                assert(seg =~= pat@.skip(pos as int).subrange(0, (e - pos) as int));
            }
        }
        if e == n {
            let node = Node { prefix: head, value: Some(value), priority: 1, children: Vec::new() };
            proof {
                assert(count(node) == 1);
                assert(is_param_seg(seg) || is_catchall_seg(seg));
                assert(pat@.skip(pos as int) =~= seg);
                assert forall|q: Seq<char>| #![auto]
                    node_route(node, q) == (if q == pat@.skip(pos as int) {
                        Some(value)
                    } else {
                        None::<T>
                    }) by {
                    build_static_route_fact(node, seg, q, pat@.skip(pos as int));
                }
            }
            node
        } else {
            proof {
                // a catch-all segment would have to end the pattern
                assert(is_param_seg(seg));
            }
            let ghost gv = value;
            let child = build_rest(pat, e, value);
            proof {
                assert(pat@[e as int] == '/');
                assert(child.prefix@[0] == '/');
                assert(!is_param_seg(child.prefix@) && !is_catchall_seg(child.prefix@)) by {
                    if is_param_seg(child.prefix@) || is_catchall_seg(child.prefix@) {
                        assert(child.prefix@[0] == '{');
                    }
                }
            }
            let mut kids: Vec<Node<T>> = Vec::new();
            kids.push(child);
            let node = Node { prefix: head, value: None, priority: 1, children: kids };
            proof {
                assert(node.children@ == seq![child]);
                assert(count_seq(node.children@) == count(child) + count_seq(
                    node.children@.drop_first(),
                )) by {
                    assert(node.children@[0] == child);
                }
                assert(node.children@.drop_first() =~= Seq::<Node<T>>::empty());
                assert(count(node) == 1);
                assert(wf_node(node)) by {
                    assert(forall|i: int|
                        0 <= i < node.children@.len() ==> #[trigger] node.children@[i] == child);
                }
                assert(pat@.skip(pos as int) =~= seg + pat@.skip(e as int));
                assert forall|q: Seq<char>| #![auto]
                    node_route(node, q) == (if q == pat@.skip(pos as int) {
                        Some(value)
                    } else {
                        None::<T>
                    }) by {
                    build_chain_route_fact(node, child, seg, q, pat@.skip(e as int), Some(gv));
                }
            }
            node
        }
    }
}

/// Route shape of a fresh leaf: it stores exactly its own prefix.
proof fn build_static_route_fact<T>(node: Node<T>, hd: Seq<char>, q: Seq<char>, rest: Seq<char>)
    requires
        node.prefix@ == hd,
        hd.len() > 0,
        node.children@.len() == 0,
        node.value is Some,
        rest == hd,
    ensures
        node_route(node, q) == (if q == rest {
            node.value
        } else {
            None::<T>
        }),
{
    if node.prefix@.is_prefix_of(q) {
        let r = q.skip(hd.len() as int);
        if r.len() == 0 {
            assert(q =~= hd);
        } else {
            assert(q != rest) by {
                if q == rest {
                    assert(q.len() == hd.len());
                }
            }
        }
    } else {
        if q == rest {
            assert(hd =~= q.subrange(0, hd.len() as int));
            assert(false);
        }
    }
}

/// Route shape of a fresh interior node with a single fresh child.
proof fn build_chain_route_fact<T>(
    node: Node<T>,
    child: Node<T>,
    hd: Seq<char>,
    q: Seq<char>,
    crest: Seq<char>,
    vv: Option<T>,
)
    requires
        node.prefix@ == hd,
        hd.len() > 0,
        node.children@ == seq![child],
        node.value is None,
        child.prefix@.len() > 0,
        vv is Some,
        forall|q2: Seq<char>| #![auto]
            node_route(child, q2) == (if q2 == crest {
                vv
            } else {
                None::<T>
            }),
    ensures
        node_route(node, q) == (if q == hd + crest {
            vv
        } else {
            None::<T>
        }),
{
    assert(node.children@[0] == child);
    if node.prefix@.is_prefix_of(q) {
        let r = q.skip(hd.len() as int);
        assert(q =~= hd + r);
        if r.len() == 0 {
            if q == hd + crest {
                assert(crest.len() == 0);
                // the child has a non-empty prefix, so it cannot store the
                // empty route, yet the child fact says it stores `crest`
                assert(!child.prefix@.is_prefix_of(crest));
                assert(node_route(child, crest) == None::<T>);
                assert(node_route(child, crest) == vv);
                assert(false);
            }
        } else {
            assert(children_route(node.children@, r) == node_route(child, r)) by {
                if !child.prefix@.is_prefix_of(r) {
                    assert(node.children@.drop_first() =~= Seq::<Node<T>>::empty());
                    assert(children_route(Seq::<Node<T>>::empty(), r) == None::<T>);
                }
            }
            assert((q == hd + crest) <==> (r == crest)) by {
                if q == hd + crest {
                    assert(r =~= crest);
                }
                if r == crest {
                    assert(q =~= hd + crest);
                }
            }
        }
    } else {
        if q == hd + crest {
            assert(hd =~= q.subrange(0, hd.len() as int));
            assert(false);
        }
    }
}

/// Index of the first child whose non-empty prefix starts with `c`, or -1.
pub open spec fn head_index<T>(cs: Seq<Node<T>>, c: char) -> int
    decreases cs.len(),
{
    if cs.len() == 0 {
        -1
    } else if cs[0].prefix@.len() > 0 && cs[0].prefix@[0] == c {
        0
    } else {
        let r = head_index(cs.drop_first(), c);
        if r < 0 {
            -1
        } else {
            r + 1
        }
    }
}

pub(crate) proof fn lemma_head_index<T>(cs: Seq<Node<T>>, c: char)
    ensures
        -1 <= head_index(cs, c) < cs.len(),
        head_index(cs, c) >= 0 ==> (#[trigger] cs[head_index(cs, c)].prefix@).len() > 0
            && cs[head_index(cs, c)].prefix@[0] == c,
        head_index(cs, c) == -1 ==> forall|j: int|
            0 <= j < cs.len() ==> !((#[trigger] cs[j].prefix@).len() > 0 && cs[j].prefix@[0] == c),
    decreases cs.len(),
{
    if cs.len() > 0 {
        lemma_head_index(cs.drop_first(), c);
        if !(cs[0].prefix@.len() > 0 && cs[0].prefix@[0] == c) {
            assert(forall|j: int| 1 <= j < cs.len() ==> cs[j] == cs.drop_first()[j - 1]);
        }
    }
}

/// Length of the longest common prefix of two sequences.
pub open spec fn lcp_of(a: Seq<char>, b: Seq<char>) -> int
    decreases a.len(),
{
    if a.len() == 0 || b.len() == 0 {
        0
    } else if a[0] != b[0] {
        0
    } else {
        1 + lcp_of(a.skip(1), b.skip(1))
    }
}

pub(crate) proof fn lemma_lcp_of_is(a: Seq<char>, b: Seq<char>, l: int)
    requires
        0 <= l <= a.len(),
        l <= b.len(),
        forall|k: int| 0 <= k < l ==> a[k] == b[k],
        l < a.len() && l < b.len() ==> a[l] != b[l],
    ensures
        lcp_of(a, b) == l,
    decreases a.len(),
{
    if a.len() == 0 || b.len() == 0 {
    } else if l == 0 {
        if a[0] == b[0] {
            assert(false);
        }
    } else {
        assert(a[0] == b[0]);
        assert(forall|k: int| 0 <= k < l - 1 ==> a.skip(1)[k] == b.skip(1)[k]);
        if l - 1 < a.skip(1).len() && l - 1 < b.skip(1).len() {
            assert(a.skip(1)[l - 1] == a[l] && b.skip(1)[l - 1] == b[l]);
        }
        lemma_lcp_of_is(a.skip(1), b.skip(1), l - 1);
    }
}

/// Does some child hold a whole catch-all segment as its prefix?
pub open spec fn has_catchall_child<T>(cs: Seq<Node<T>>) -> bool {
    exists|j: int| 0 <= j < cs.len() && is_catchall_seg((#[trigger] cs[j].prefix@))
}

/// Would registering the pattern tail `p` in the subtree of `n` be
/// rejected as a conflict?  True exactly when the tail reaches an occupied
/// terminal, meets a wildcard of a different shape at its own wildcard
/// position, or forces a catch-all to share a node with siblings.
pub open spec fn conflicts<T>(n: Node<T>, p: Seq<char>) -> bool
    decreases p.len(),
    via conflicts_dec::<T>
{
    if p.len() == 0 {
        n.value is Some
    } else {
        let i = head_index(n.children@, p[0]);
        if p[0] == '{' {
            if i >= 0 {
                let w = n.children@[i];
                if is_catchall_seg(w.prefix@) {
                    true
                } else if w.prefix@.is_prefix_of(p) {
                    conflicts(w, p.skip(w.prefix@.len() as int))
                } else {
                    true
                }
            } else {
                p.len() >= 2 && p[1] == '*' && n.children@.len() > 0
            }
        } else {
            if i >= 0 {
                let c = n.children@[i];
                let l = lcp_of(c.prefix@, p);
                if l == c.prefix@.len() {
                    conflicts(c, p.skip(l))
                } else {
                    l + 1 < p.len() && p[l] == '{' && p[l + 1] == '*'
                }
            } else {
                has_catchall_child(n.children@)
            }
        }
    }
}

#[via_fn]
proof fn conflicts_dec<T>(n: Node<T>, p: Seq<char>) {
    if p.len() > 0 {
        lemma_head_index(n.children@, p[0]);
        let i = head_index(n.children@, p[0]);
        if i >= 0 {
            lemma_lcp_of_bounds(n.children@[i].prefix@, p);
        }
    }
}

pub(crate) proof fn lemma_lcp_of_bounds(a: Seq<char>, b: Seq<char>)
    ensures
        0 <= lcp_of(a, b) <= a.len(),
        lcp_of(a, b) <= b.len(),
    decreases a.len(),
{
    if a.len() > 0 && b.len() > 0 && a[0] == b[0] {
        lemma_lcp_of_bounds(a.skip(1), b.skip(1));
    }
}

/// Effect of replacing child `i` on dispatch, for every pattern.
proof fn lemma_update_dispatch<T>(cs0: Seq<Node<T>>, i: int, c: Node<T>, p: Seq<char>)
    requires
        distinct_heads(cs0),
        0 <= i < cs0.len(),
        c.prefix@.len() > 0,
        c.prefix@[0] == cs0[i].prefix@[0],
    ensures
        p.len() > 0 && p[0] == cs0[i].prefix@[0] ==> children_route(cs0.update(i, c), p)
            == node_route(c, p) && children_route(cs0, p) == node_route(cs0[i], p),
        !(p.len() > 0 && p[0] == cs0[i].prefix@[0]) ==> children_route(cs0.update(i, c), p)
            == children_route(cs0, p),
{
    let cs1 = cs0.update(i, c);
    assert(distinct_heads(cs1)) by {
        assert(forall|j: int| 0 <= j < cs1.len() && j != i ==> cs1[j] == cs0[j]);
    }
    if p.len() > 0 && p[0] == cs0[i].prefix@[0] {
        lemma_cr_at(cs0, i, p);
        lemma_cr_at(cs1, i, p);
    } else {
        if p.len() > 0 && exists|j: int| 0 <= j < cs0.len() && p[0] == (#[trigger] cs0[j].prefix@)[0] {
            let j = choose|j: int| 0 <= j < cs0.len() && p[0] == (#[trigger] cs0[j].prefix@)[0];
            assert(j != i);
            lemma_cr_at(cs0, j, p);
            assert(cs1[j] == cs0[j]);
            lemma_cr_at(cs1, j, p);
        } else {
            lemma_cr_none(cs0, p);
            lemma_cr_none(cs1, p);
        }
    }
}

/// Effect of appending a child with a fresh head character on dispatch.
proof fn lemma_push_dispatch<T>(cs0: Seq<Node<T>>, c: Node<T>, p: Seq<char>)
    requires
        distinct_heads(cs0),
        c.prefix@.len() > 0,
        forall|j: int| 0 <= j < cs0.len() ==> (#[trigger] cs0[j].prefix@)[0] != c.prefix@[0],
    ensures
        p.len() > 0 && p[0] == c.prefix@[0] ==> children_route(cs0.push(c), p) == node_route(c, p)
            && children_route(cs0, p) == None::<T>,
        !(p.len() > 0 && p[0] == c.prefix@[0]) ==> children_route(cs0.push(c), p)
            == children_route(cs0, p),
{
    let cs1 = cs0.push(c);
    assert(cs1[cs0.len() as int] == c);
    assert(forall|j: int| 0 <= j < cs0.len() ==> cs1[j] == cs0[j]);
    assert(distinct_heads(cs1));
    if p.len() > 0 && p[0] == c.prefix@[0] {
        lemma_cr_at(cs1, cs0.len() as int, p);
        lemma_cr_none(cs0, p);
    } else {
        if p.len() > 0 && exists|j: int| 0 <= j < cs0.len() && p[0] == (#[trigger] cs0[j].prefix@)[0] {
            let j = choose|j: int| 0 <= j < cs0.len() && p[0] == (#[trigger] cs0[j].prefix@)[0];
            lemma_cr_at(cs0, j, p);
            lemma_cr_at(cs1, j, p);
        } else {
            lemma_cr_none(cs0, p);
            lemma_cr_none(cs1, p);
        }
    }
}

/// The children of a well-formed node have distinct head characters.
proof fn lemma_wf_heads<T>(n: Node<T>)
    requires
        wf_node(n),
    ensures
        distinct_heads(n.children@),
{
    assert(forall|j: int|
        0 <= j < n.children@.len() ==> child_ok(#[trigger] n.children@[j]));
}

/// Under distinct heads, `head_index` finds exactly the child whose
/// prefix starts with `c`.
pub(crate) proof fn lemma_head_index_at<T>(cs: Seq<Node<T>>, i: int, c: char)
    requires
        distinct_heads(cs),
        0 <= i < cs.len(),
        cs[i].prefix@[0] == c,
    ensures
        head_index(cs, c) == i,
{
    lemma_head_index(cs, c);
    let hi = head_index(cs, c);
    if hi == -1 {
        assert(!(cs[i].prefix@.len() > 0 && cs[i].prefix@[0] == c));
        assert(false);
    } else {
        if hi != i {
            assert(cs[hi].prefix@[0] == cs[i].prefix@[0]);
            assert(false);
        }
    }
}

/// Inserts `value` under the pattern tail that starts at `pos`, the prefix
/// of `n` itself already consumed.  On success the subtree stores exactly
/// one more route: the tail.  On conflict the stored routes are unchanged.
pub(crate) fn insert_rec<T>(n: &mut Node<T>, pat: &str, pos: usize, value: T) -> (r: Result<(), InsertError>)
    requires
        wf_node(*old(n)),
        valid_pattern(pat@),
        braces_ok(pat@),
        pos <= pat@.len(),
        is_param_seg(old(n).prefix@) ==> pos == pat@.len() || pat@[pos as int] == '/',
        count(*old(n)) < u32::MAX as nat,
    ensures
        wf_node(*final(n)),
        final(n).prefix@ == old(n).prefix@,
        r is Ok ==> count(*final(n)) == count(*old(n)) + 1,
        r is Err ==> count(*final(n)) == count(*old(n)),
        r is Ok ==> sub_route(*old(n), pat@.skip(pos as int)) is None,
        r is Ok ==> forall|p: Seq<char>| #![auto]
            sub_route(*final(n), p) == (if p == pat@.skip(pos as int) {
                Some(value)
            } else {
                sub_route(*old(n), p)
            }),
        r is Err ==> forall|p: Seq<char>| #![auto] sub_route(*final(n), p) == sub_route(*old(n), p),
        r matches Err(e) ==> e == InsertError::Conflict,
        sub_route(*old(n), pat@.skip(pos as int)) is Some ==> r == Err::<(), InsertError>(
            InsertError::Conflict,
        ),
        r is Ok <==> !conflicts(*old(n), pat@.skip(pos as int)),
    decreases pat@.len() - pos,
{
    let n_len = pat.unicode_len();
    let ghost rest = pat@.skip(pos as int);
    if pos == n_len {
        proof {
            assert(rest =~= Seq::<char>::empty());
            assert(conflicts(*n, rest) == (n.value is Some));
        }
        if n.value.is_some() {
            return Err(InsertError::Conflict);
        }
        n.value = Some(value);
        n.priority = n.priority + 1;
        proof {
            assert(count(*n) == count(*old(n)) + 1);
            assert(wf_node(*n));
            assert forall|p: Seq<char>| #![auto]
                sub_route(*n, p) == (if p == rest {
                    Some(value)
                } else {
                    sub_route(*old(n), p)
                }) by {
                if p.len() == 0 {
                    assert(p =~= rest);
                } else {
                    assert(p != rest);
                }
            }
        }
        return Ok(());
    }
    let c0 = pat.get_char(pos);
    proof {
        assert(rest.len() > 0);
        assert(rest[0] == pat@[pos as int]);
        lemma_wf_heads(*n);
    }
    let ghost cs0 = n.children@;
    match find_child(&n.children, c0) {
        Some(i) => {
            proof {
                assert(child_ok(cs0[i as int]) && wf_node(cs0[i as int]));
                lemma_count_seq_ge(cs0, i as int);
                assert(count(*old(n)) >= count_seq(cs0));
            }
            if c0 == '{' {
                // The tail starts a wildcard segment and a wildcard child
                // exists: both must be the same parameter segment.
                proof {
                    assert(!brace_free(cs0[i as int].prefix@));
                    assert(is_param_seg(cs0[i as int].prefix@) || is_catchall_seg(
                        cs0[i as int].prefix@,
                    ));
                    assert(cs0[i as int].prefix@.len() >= 3);
                }
                let is_ca = n.children[i].prefix.as_str().get_char(1) == '*';
                let matched = is_prefix_at(n.children[i].prefix.as_str(), pat, pos);
                proof {
                    lemma_wf_heads(*n);
                    lemma_head_index_at(cs0, i as int, '{');
                    assert(is_ca == is_catchall_seg(cs0[i as int].prefix@)) by {
                        if is_param_seg(cs0[i as int].prefix@) {
                            assert(cs0[i as int].prefix@[1] != '*');
                        } else {
                            assert(is_catchall_seg(cs0[i as int].prefix@));
                            assert(cs0[i as int].prefix@[1] == '*');
                        }
                    }
                    if is_ca || !matched {
                        assert(conflicts(*n, rest));
                    } else {
                        assert(conflicts(*n, rest) == conflicts(
                            cs0[i as int],
                            rest.skip(cs0[i as int].prefix@.len() as int),
                        ));
                    }
                }
                if is_ca || !matched {
                    // a catch-all always stores its route at its own node,
                    // so meeting one again is a conflict; so is a wildcard
                    // of a different name or kind
                    return Err(InsertError::Conflict);
                }
                let plen = n.children[i].prefix.unicode_len();
                proof {
                    assert(rest.len() >= plen);
                    assert(is_param_seg(cs0[i as int].prefix@) ==> pos + plen == pat@.len()
                        || pat@[(pos + plen) as int] == '/') by {
                        if is_param_seg(cs0[i as int].prefix@) {
                            let w = cs0[i as int].prefix@;
                            assert(w =~= rest.subrange(0, plen as int));
                            lemma_wild_chars(w);
                            assert(wild_here(pat@, pos as int));
                            lemma_seg_end(pat@.skip(pos as int));
                            let se = seg_end(pat@.skip(pos as int));
                            let seg = pat@.subrange(pos as int, pos + se);
                            assert(is_param_seg(seg) || is_catchall_seg(seg));
                            assert forall|k: int| 0 <= k < plen implies pat@.skip(
                                pos as int,
                            )[k] != '/' by {
                                assert(w[k] == rest[k]);
                            }
                            assert(se >= plen);
                            if se > plen as int {
                                assert(seg[plen - 1] == w[plen - 1]);
                                assert(w[plen - 1] == '}');
                                assert(1 <= plen - 1 < seg.len() - 1);
                                if is_param_seg(seg) {
                                    assert(ok_name_char(seg[plen - 1]));
                                } else {
                                    if plen - 1 >= 2 {
                                        assert(ok_name_char(seg[plen - 1]));
                                    } else {
                                        assert(seg[1] == '*');
                                    }
                                }
                                assert(false);
                            }
                            assert(se == plen);
                            if pos + se < pat@.len() {
                                assert(pat@.skip(pos as int)[se] == '/');
                            }
                        }
                    }
                    assert(!is_catchall_seg(cs0[i as int].prefix@)) by {
                        if is_catchall_seg(cs0[i as int].prefix@) {
                            assert(cs0[i as int].prefix@[1] == '*');
                            assert(cs0[i as int].prefix@ =~= rest.subrange(0, plen as int));
                            assert(pat@[pos + 1] == '*');
                        }
                    }
                }
                let mut child = n.children.remove(i);
                let ghost orig_child = child;
                let rr = insert_rec(&mut child, pat, pos + plen, value);
                let ghost fin_child = child;
                n.children.insert(i, child);
                if rr.is_ok() {
                    n.priority = n.priority + 1;
                }
                proof {
                    assert(orig_child == cs0[i as int]);
                    assert(n.children@ =~= cs0.update(i as int, fin_child));
                    assert(pat@.skip((pos + plen) as int) =~= rest.skip(plen as int));
                    insert_child_compose(
                        *old(n),
                        *n,
                        cs0,
                        i as int,
                        orig_child,
                        fin_child,
                        rest,
                        rest.skip(plen as int),
                        Some(value),
                        rr is Ok,
                    );
                    assert(pat@.skip(pos as int) == rest);
                }
                return rr;
            }
            // Static dispatch: share the longest common prefix with the
            // child, splitting the child if it diverges in the middle.
            let plen = n.children[i].prefix.unicode_len();
            let l = lcp_from(n.children[i].prefix.as_str(), pat, pos);
            proof {
                lemma_wf_heads(*n);
                lemma_head_index_at(cs0, i as int, c0);
                assert(lcp_of(cs0[i as int].prefix@, rest) == l) by {
                    assert(forall|k: int|
                        0 <= k < l ==> cs0[i as int].prefix@[k] == rest[k]);
                    lemma_lcp_of_is(cs0[i as int].prefix@, rest, l as int);
                }
            }
            proof {
                assert(cs0[i as int].prefix@[0] == c0);
                if l == 0 {
                    assert(cs0[i as int].prefix@[0] != pat@[pos as int]);
                    assert(false);
                }
                assert(brace_free(cs0[i as int].prefix@)) by {
                    if is_param_seg(cs0[i as int].prefix@) || is_catchall_seg(
                        cs0[i as int].prefix@,
                    ) {
                        assert(cs0[i as int].prefix@[0] == '{');
                    }
                }
                assert(!is_catchall_seg(cs0[i as int].prefix@)) by {
                    if is_catchall_seg(cs0[i as int].prefix@) {
                        assert(cs0[i as int].prefix@[0] == '{');
                    }
                }
            }
            let mut child = n.children.remove(i);
            let ghost orig_child = child;
            if l < plen {
                proof {
                    if sub_route(*old(n), rest) is Some {
                        lemma_cr_at(cs0, i as int, rest);
                        assert(node_route(cs0[i as int], rest) is Some);
                        assert(cs0[i as int].prefix@.is_prefix_of(rest));
                        assert(cs0[i as int].prefix@[l as int] == rest.subrange(
                            0,
                            plen as int,
                        )[l as int]);
                        assert(false);
                    }
                }
                // split: the child keeps the unshared tail of its prefix
                // and is demoted under a new node holding the shared part
                let pr = child.priority;
                let head = sub_string(child.prefix.as_str(), 0, l);
                let tail = sub_string(child.prefix.as_str(), l, plen);
                child.prefix = tail;
                let ghost inner = child;
                let mut kids: Vec<Node<T>> = Vec::new();
                kids.push(child);
                let mut newp = Node { prefix: head, value: None, priority: pr, children: kids };
                let ghost newp0 = newp;
                proof {
                    assert(orig_child == cs0[i as int]);
                    assert(newp0.children@ == seq![inner]);
                    assert(newp0.prefix@ + inner.prefix@ =~= orig_child.prefix@);
                    split_node_facts(orig_child, inner, newp0);
                    assert(count(newp0) < u32::MAX as nat);
                    assert(newp0.prefix@.is_prefix_of(rest)) by {
                        assert(newp0.prefix@ =~= rest.subrange(0, l as int));
                    }
                    assert(!is_catchall_seg(newp0.prefix@)) by {
                        if is_catchall_seg(newp0.prefix@) {
                            assert(newp0.prefix@[0] == '{');
                        }
                    }
                }
                proof {
                    let pr2 = rest.skip(l as int);
                    assert(conflicts(*old(n), rest) == (l + 1 < rest.len() && rest[l as int]
                        == '{' && rest[l + 1] == '*'));
                    assert(conflicts(newp0, pr2) == (l + 1 < rest.len() && rest[l as int] == '{'
                        && rest[l + 1] == '*')) by {
                        if pr2.len() == 0 {
                        } else {
                            assert(pr2[0] == rest[l as int]);
                            assert(inner.prefix@[0] == orig_child.prefix@[l as int]);
                            assert(inner.prefix@[0] != pr2[0]);
                            lemma_head_index(newp0.children@, pr2[0]);
                            assert(newp0.children@[0] == inner);
                            assert(head_index(newp0.children@, pr2[0]) == -1) by {
                                if head_index(newp0.children@, pr2[0]) >= 0 {
                                    assert(head_index(newp0.children@, pr2[0]) == 0);
                                }
                            }
                            if pr2[0] == '{' {
                                assert(pr2.len() >= 2 <==> l + 1 < rest.len());
                                if pr2.len() >= 2 {
                                    assert(pr2[1] == rest[l + 1]);
                                }
                            } else {
                                assert(!has_catchall_child(newp0.children@)) by {
                                    if has_catchall_child(newp0.children@) {
                                        let j = choose|j: int|
                                            0 <= j < newp0.children@.len() && is_catchall_seg(
                                                (#[trigger] newp0.children@[j].prefix@),
                                            );
                                        assert(newp0.children@[j] == inner);
                                        assert(inner.prefix@[0] == '{');
                                        assert(brace_free(inner.prefix@));
                                    }
                                }
                            }
                        }
                    }
                }
                let rr = insert_rec(&mut newp, pat, pos + l, value);
                let ghost fin_child = newp;
                n.children.insert(i, newp);
                if rr.is_ok() {
                    n.priority = n.priority + 1;
                }
                proof {
                    assert(pat@.skip((pos + l) as int) =~= rest.skip(l as int));
                    assert forall|p: Seq<char>| #![auto]
                        node_route(newp0, p) == node_route(orig_child, p) by {
                        lemma_passthrough(newp0, inner, orig_child, p);
                    }
                    assert(n.children@ =~= cs0.update(i as int, fin_child));
                    assert(pat@.skip((pos + l) as int) =~= rest.skip(l as int));
                    insert_child_compose(
                        *old(n),
                        *n,
                        cs0,
                        i as int,
                        newp0,
                        fin_child,
                        rest,
                        rest.skip(l as int),
                        Some(value),
                        rr is Ok,
                    );
                }
                return rr;
            }
            // l == plen: the whole child prefix is shared; descend
            proof {
                assert(child.prefix@.is_prefix_of(rest)) by {
                    assert(child.prefix@ =~= rest.subrange(0, plen as int));
                }
                assert(conflicts(*old(n), rest) == conflicts(cs0[i as int], rest.skip(l as int)));
                assert(pat@.skip((pos + l) as int) =~= rest.skip(l as int));
            }
            let rr = insert_rec(&mut child, pat, pos + l, value);
            let ghost fin_child = child;
            n.children.insert(i, child);
            if rr.is_ok() {
                n.priority = n.priority + 1;
            }
            proof {
                assert(orig_child == cs0[i as int]);
                assert(n.children@ =~= cs0.update(i as int, fin_child));
                assert(pat@.skip((pos + l) as int) =~= rest.skip(l as int));
                insert_child_compose(
                    *old(n),
                    *n,
                    cs0,
                    i as int,
                    orig_child,
                    fin_child,
                    rest,
                    rest.skip(l as int),
                    Some(value),
                    rr is Ok,
                );
            }
            return rr;
        },
        None => {
            // No child shares the tail's first character: a fresh subtree
            // is attached, unless a catch-all child forbids siblings.
            let wild = find_child(&n.children, '{');
            let mut has_ca = false;
            if let Some(j) = wild {
                proof {
                    assert(child_ok(cs0[j as int]));
                    assert(!brace_free(cs0[j as int].prefix@));
                    assert(is_param_seg(cs0[j as int].prefix@) || is_catchall_seg(
                        cs0[j as int].prefix@,
                    ));
                    assert(cs0[j as int].prefix@.len() >= 3);
                }
                has_ca = n.children[j].prefix.as_str().get_char(1) == '*';
            }
            let new_is_ca: bool = if c0 == '{' {
                proof {
                    assert(wild_here(pat@, pos as int));
                    lemma_seg_end(pat@.skip(pos as int));
                    assert(pos + 1 < pat@.len()) by {
                        let e = pos + seg_end(pat@.skip(pos as int));
                        assert(pat@.subrange(pos as int, e as int).len() >= 3);
                    }
                }
                pat.get_char(pos + 1) == '*'
            } else {
                false
            };
            proof {
                lemma_wf_heads(*n);
                lemma_head_index(cs0, c0);
                assert(head_index(cs0, c0) == -1) by {
                    if head_index(cs0, c0) >= 0 {
                        assert(cs0[head_index(cs0, c0)].prefix@[0] == c0);
                    }
                }
                if c0 == '{' {
                    assert(!has_ca);
                    assert(rest.len() >= 2) by {
                        let e = pos + seg_end(pat@.skip(pos as int));
                        assert(pat@.subrange(pos as int, e as int).len() >= 3);
                        lemma_seg_end(pat@.skip(pos as int));
                    }
                    assert(rest[1] == pat@[pos + 1]);
                    assert(conflicts(*n, rest) == (new_is_ca && cs0.len() > 0));
                } else {
                    assert(has_ca == has_catchall_child(cs0)) by {
                        match wild {
                            Some(wj) => {
                                if has_ca {
                                    assert(is_catchall_seg(cs0[wj as int].prefix@)) by {
                                        if is_param_seg(cs0[wj as int].prefix@) {
                                            assert(cs0[wj as int].prefix@[1] != '*');
                                        }
                                    }
                                } else {
                                    assert(is_param_seg(cs0[wj as int].prefix@)) by {
                                        if is_catchall_seg(cs0[wj as int].prefix@) {
                                            assert(cs0[wj as int].prefix@[1] == '*');
                                        }
                                    }
                                    if has_catchall_child(cs0) {
                                        let j = choose|j: int|
                                            0 <= j < cs0.len() && is_catchall_seg(
                                                (#[trigger] cs0[j].prefix@),
                                            );
                                        assert(cs0[j].prefix@[0] == '{');
                                        assert(j == wj as int);
                                    }
                                }
                            },
                            None => {
                                if has_catchall_child(cs0) {
                                    let j = choose|j: int|
                                        0 <= j < cs0.len() && is_catchall_seg(
                                            (#[trigger] cs0[j].prefix@),
                                        );
                                    assert(cs0[j].prefix@[0] == '{');
                                }
                            },
                        }
                    }
                    assert(conflicts(*n, rest) == has_catchall_child(cs0));
                }
            }
            if has_ca || (new_is_ca && n.children.len() > 0) {
                return Err(InsertError::Conflict);
            }
            proof {
                if sub_route(*old(n), rest) is Some {
                    lemma_cr_some_child(cs0, rest);
                    let j = choose|j: int|
                        0 <= j < cs0.len() && (#[trigger] cs0[j].prefix@).is_prefix_of(rest);
                    assert(cs0[j].prefix@[0] == rest.subrange(0, cs0[j].prefix@.len() as int)[0]);
                    assert(cs0[j].prefix@[0] == c0);
                    assert(false);
                }
            }
            let node = build_rest(pat, pos, value);
            n.children.push(node);
            n.priority = n.priority + 1;
            proof {
                assert(cs0.push(node) == n.children@);
                lemma_count_seq_push(cs0, node);
                assert(count(*n) == count(*old(n)) + 1);
                assert(node.prefix@[0] == c0);
                assert(wf_node(*n)) by {
                    assert(forall|j: int| 0 <= j < cs0.len() ==> n.children@[j] == cs0[j]);
                    assert(n.children@[cs0.len() as int] == node);
                    assert forall|j: int|
                        0 <= j < n.children@.len() && is_catchall_seg(
                            #[trigger] n.children@[j].prefix@,
                        ) implies n.children@.len() == 1 by {
                        if j < cs0.len() {
                            // an old catch-all child would have been found
                            // as the wildcard child and rejected above
                            assert(cs0[j].prefix@[0] == '{');
                            match wild {
                                Some(wj) => {
                                    assert(j == wj as int);
                                    assert(cs0[wj as int].prefix@[1] != '*');
                                    assert(false);
                                },
                                None => {
                                    assert(false);
                                },
                            }
                        } else {
                            assert(n.children@[j] == node);
                            assert(node.prefix@[0] == '{' && node.prefix@[1] == '*');
                            assert(node.prefix@[1] == pat@.skip(pos as int)[1]);
                            assert(pat@[pos + 1] == '*');
                            assert(new_is_ca);
                            assert(cs0.len() == 0);
                        }
                    }
                }
                assert forall|p: Seq<char>| #![auto]
                    sub_route(*n, p) == (if p == rest {
                        Some(value)
                    } else {
                        sub_route(*old(n), p)
                    }) by {
                    lemma_push_dispatch(cs0, node, p);
                    if p.len() == 0 {
                        assert(p != rest);
                    } else if p[0] == c0 {
                        if p != rest {
                            assert(sub_route(*old(n), p) == None::<T>);
                        }
                    } else {
                        assert(p != rest);
                    }
                }
                assert(sub_route(*old(n), rest) is None) by {
                    lemma_push_dispatch(cs0, node, rest);
                }
            }
            return Ok(());
        },
    }
}

/// The demoted half of a split keeps the routes of the original child.
proof fn split_node_facts<T>(orig: Node<T>, inner: Node<T>, newp: Node<T>)
    requires
        wf_node(orig),
        child_ok(orig),
        brace_free(orig.prefix@),
        inner.value == orig.value,
        inner.children == orig.children,
        inner.priority == orig.priority,
        inner.prefix@.len() > 0,
        newp.value is None,
        newp.children@ == seq![inner],
        newp.priority == orig.priority,
        newp.prefix@.len() > 0,
        newp.prefix@ + inner.prefix@ == orig.prefix@,
    ensures
        wf_node(newp),
        count(newp) == count(orig),
        child_ok(inner),
{
    assert(inner.children@ == orig.children@);
    assert(count(inner) == count(orig)) by {
        if inner.value is Some {
        }
    }
    assert(!is_param_seg(inner.prefix@)) by {
        if is_param_seg(inner.prefix@) {
            assert(inner.prefix@[0] == '{');
            assert((newp.prefix@ + inner.prefix@)[newp.prefix@.len() as int]
                == inner.prefix@[0]);
            assert(orig.prefix@[newp.prefix@.len() as int] != '{');
        }
    }
    assert(!is_param_seg(newp.prefix@)) by {
        if is_param_seg(newp.prefix@) {
            assert(newp.prefix@[0] == '{');
            assert((newp.prefix@ + inner.prefix@)[0] == newp.prefix@[0]);
            assert(orig.prefix@[0] != '{');
        }
    }
    assert(wf_node(inner)) by {
        assert(forall|j: int|
            0 <= j < inner.children@.len() ==> inner.children@[j] == orig.children@[j]);
    }
    assert(child_ok(inner)) by {
        assert(forall|k: int|
            0 <= k < inner.prefix@.len() ==> inner.prefix@[k] == orig.prefix@[newp.prefix@.len()
                + k]);
        assert(brace_free(inner.prefix@));
    }
    assert(newp.children@[0] == inner);
    assert(newp.children@.drop_first() =~= Seq::<Node<T>>::empty());
    assert(count_seq(newp.children@) == count(inner) + count_seq(Seq::<Node<T>>::empty()));
    assert(count(newp) == count(orig));
    assert(wf_node(newp)) by {
        assert(forall|j: int| 0 <= j < newp.children@.len() ==> newp.children@[j] == inner);
        assert(!is_catchall_seg(inner.prefix@)) by {
            if is_catchall_seg(inner.prefix@) {
                assert(inner.prefix@[0] == '{');
                assert(inner.prefix@[0] == orig.prefix@[newp.prefix@.len() as int]) by {
                    assert((newp.prefix@ + inner.prefix@)[newp.prefix@.len() as int]
                        == inner.prefix@[0]);
                }
                assert(orig.prefix@[newp.prefix@.len() as int] != '{');
            }
        }
    }
}

/// Composes the contract of a recursive insertion into child `i` back to
/// the parent: the parent's routes change exactly at the inserted tail.
#[verifier::rlimit(30)]
proof fn insert_child_compose<T>(
    n0: Node<T>,
    n1: Node<T>,
    cs0: Seq<Node<T>>,
    i: int,
    oc: Node<T>,
    fc: Node<T>,
    rest: Seq<char>,
    crest: Seq<char>,
    vv: Option<T>,
    ok: bool,
)
    requires
        wf_node(n0),
        n0.children@ == cs0,
        0 <= i < cs0.len(),
        distinct_heads(cs0),
        child_ok(cs0[i]),
        // the original child may have been reshaped (split) first, without
        // changing its routes, head character, or count
        oc.prefix@.len() > 0,
        oc.prefix@[0] == cs0[i].prefix@[0],
        forall|p: Seq<char>| #![auto] node_route(oc, p) == node_route(cs0[i], p),
        count(oc) == count(cs0[i]),
        wf_node(oc),
        child_ok(oc),
        !is_catchall_seg(oc.prefix@),
        // the recursion's contract on the final child
        wf_node(fc),
        fc.prefix@ == oc.prefix@,
        ok ==> count(fc) == count(oc) + 1,
        !ok ==> count(fc) == count(oc),
        ok ==> sub_route(oc, crest) is None,
        ok ==> forall|p: Seq<char>| #![auto]
            sub_route(fc, p) == (if p == crest {
                vv
            } else {
                sub_route(oc, p)
            }),
        !ok ==> forall|p: Seq<char>| #![auto] sub_route(fc, p) == sub_route(oc, p),
        // how the parent was reassembled
        n1.children@ == cs0.update(i, fc),
        n1.value == n0.value,
        n1.prefix@ == n0.prefix@,
        ok ==> n1.priority == n0.priority + 1,
        !ok ==> n1.priority == n0.priority,
        // the inserted tail dispatches through child i
        rest.len() > 0,
        rest[0] == cs0[i].prefix@[0],
        oc.prefix@.is_prefix_of(rest),
        crest == rest.skip(oc.prefix@.len() as int),
        vv is Some,
        count(n0) < u32::MAX as nat,
    ensures
        wf_node(n1),
        ok ==> count(n1) == count(n0) + 1,
        !ok ==> count(n1) == count(n0),
        ok ==> sub_route(n0, rest) is None,
        ok ==> forall|p: Seq<char>| #![auto]
            sub_route(n1, p) == (if p == rest {
                vv
            } else {
                sub_route(n0, p)
            }),
        !ok ==> forall|p: Seq<char>| #![auto] sub_route(n1, p) == sub_route(n0, p),
{
    let cs1 = cs0.update(i, fc);
    lemma_count_seq_update(cs0, i, fc);
    assert(child_ok(fc)) by {
        if is_param_seg(fc.prefix@) || is_catchall_seg(fc.prefix@) {
            assert(!is_catchall_seg(oc.prefix@));
            assert(is_param_seg(fc.prefix@));
        }
    }
    assert(wf_node(n1)) by {
        assert(forall|j: int| 0 <= j < cs1.len() && j != i ==> cs1[j] == cs0[j]);
        assert(cs1[i] == fc);
        assert forall|j: int|
            0 <= j < cs1.len() && is_catchall_seg(#[trigger] cs1[j].prefix@) implies cs1.len()
            == 1 by {
            if j == i {
                assert(!is_catchall_seg(fc.prefix@));
                assert(false);
            } else {
                assert(cs1[j] == cs0[j]);
            }
        }
    }
    // route of the tail through the old tree
    lemma_cr_at(cs0, i, rest);
    assert(node_route(cs0[i], rest) == sub_route(oc, crest)) by {
        assert(node_route(oc, rest) == sub_route(oc, crest));
    }
    if ok {
        assert(sub_route(n0, rest) == sub_route(oc, crest));
        assert(sub_route(n0, rest) is None);
    }
    assert forall|p: Seq<char>| #![auto]
        sub_route(n1, p) == (if ok && p == rest {
            vv
        } else {
            sub_route(n0, p)
        }) by {
        lemma_update_dispatch(cs0, i, fc, p);
        if p.len() == 0 {
            assert(p != rest);
        } else if p[0] == cs0[i].prefix@[0] {
            assert(children_route(cs1, p) == node_route(fc, p));
            assert(children_route(cs0, p) == node_route(cs0[i], p));
            assert(node_route(cs0[i], p) == node_route(oc, p));
            if oc.prefix@.is_prefix_of(p) {
                let q = p.skip(oc.prefix@.len() as int);
                assert(node_route(fc, p) == sub_route(fc, q));
                assert(node_route(oc, p) == sub_route(oc, q));
                assert((p == rest) <==> (q == crest)) by {
                    if p == rest {
                        assert(q =~= crest);
                    }
                    if q == crest {
                        assert(p =~= rest) by {
                            assert(forall|k: int|
                                0 <= k < oc.prefix@.len() ==> p[k] == oc.prefix@[k] && rest[k]
                                    == oc.prefix@[k]);
                            assert(forall|k: int|
                                oc.prefix@.len() <= k < p.len() ==> p[k] == q[k
                                    - oc.prefix@.len()]);
                            assert(forall|k: int|
                                oc.prefix@.len() <= k < rest.len() ==> rest[k] == crest[k
                                    - oc.prefix@.len()]);
                        }
                    }
                }
            } else {
                assert(node_route(fc, p) == None::<T>) by {
                    assert(fc.prefix@ == oc.prefix@);
                }
                assert(node_route(oc, p) == None::<T>);
                assert(p != rest);
            }
        } else {
            assert(p != rest);
        }
    }
}


// ---------------------------------------------------------------------------
// Removal.
// ---------------------------------------------------------------------------
/// Lifts a child's sub-route change to its node-level routes.
proof fn lemma_node_sub_bridge<T>(
    oc: Node<T>,
    fc: Node<T>,
    rest: Seq<char>,
    crest: Seq<char>,
    res: Option<T>,
)
    requires
        fc.prefix@ == oc.prefix@,
        oc.prefix@.len() > 0,
        oc.prefix@.is_prefix_of(rest),
        crest == rest.skip(oc.prefix@.len() as int),
        forall|p: Seq<char>| #![auto]
            sub_route(fc, p) == (if p == crest {
                res
            } else {
                sub_route(oc, p)
            }),
    ensures
        forall|p: Seq<char>| #![auto]
            node_route(fc, p) == (if p == rest {
                res
            } else {
                node_route(oc, p)
            }),
        node_route(oc, rest) == sub_route(oc, crest),
{
    assert(node_route(oc, rest) == sub_route(oc, crest));
    assert forall|p: Seq<char>| #![auto]
        node_route(fc, p) == (if p == rest {
            res
        } else {
            node_route(oc, p)
        }) by {
        if oc.prefix@.is_prefix_of(p) {
            let q = p.skip(oc.prefix@.len() as int);
            assert(node_route(fc, p) == sub_route(fc, q));
            assert(node_route(oc, p) == sub_route(oc, q));
            assert((p == rest) <==> (q == crest)) by {
                if p == rest {
                    assert(q =~= crest);
                }
                if q == crest {
                    assert(p =~= rest) by {
                        assert(forall|k: int|
                            0 <= k < oc.prefix@.len() ==> p[k] == oc.prefix@[k] && rest[k]
                                == oc.prefix@[k]);
                        assert(forall|k: int|
                            oc.prefix@.len() <= k < p.len() ==> p[k] == q[k - oc.prefix@.len()]);
                        assert(forall|k: int|
                            oc.prefix@.len() <= k < rest.len() ==> rest[k] == crest[k
                                - oc.prefix@.len()]);
                    }
                }
            }
        } else {
            assert(node_route(fc, p) == None::<T>);
            assert(node_route(oc, p) == None::<T>);
            assert(p != rest);
        }
    }
}

/// Composes a removal inside child `i` back to the parent: the parent
/// loses exactly the removed route, whether the child was kept, replaced
/// by a merged node, or dropped.
#[verifier::rlimit(30)]
proof fn remove_child_compose<T>(
    n0: Node<T>,
    n1: Node<T>,
    cs0: Seq<Node<T>>,
    i: int,
    fc: Node<T>,
    rest: Seq<char>,
    removed: Option<T>,
    dead: bool,
)
    requires
        wf_node(n0),
        n0.children@ == cs0,
        0 <= i < cs0.len(),
        rest.len() > 0,
        rest[0] == cs0[i].prefix@[0],
        removed is Some,
        node_route(cs0[i], rest) == removed,
        dead ==> forall|p: Seq<char>|
            p != rest ==> #[trigger] node_route(cs0[i], p) == None::<T>,
        !dead ==> forall|p: Seq<char>| #![auto]
            node_route(fc, p) == (if p == rest {
                None::<T>
            } else {
                node_route(cs0[i], p)
            }),
        !dead ==> fc.prefix@.len() > 0 && fc.prefix@[0] == cs0[i].prefix@[0] && wf_node(fc)
            && child_ok(fc) && count(fc) + 1 == count(cs0[i]),
        !dead ==> (is_catchall_seg(fc.prefix@) ==> is_catchall_seg(cs0[i].prefix@)),
        dead ==> count(cs0[i]) == 1,
        n1.children@ == (if dead {
            cs0.remove(i)
        } else {
            cs0.update(i, fc)
        }),
        n1.value == n0.value,
        n1.prefix@ == n0.prefix@,
        n1.priority + 1 == n0.priority,
    ensures
        wf_node(n1),
        count(n1) + 1 == count(n0),
        sub_route(n0, rest) == removed,
        forall|p: Seq<char>| #![auto]
            sub_route(n1, p) == (if p == rest {
                None::<T>
            } else {
                sub_route(n0, p)
            }),
{
    lemma_wf_heads(n0);
    lemma_cr_at(cs0, i, rest);
    assert(sub_route(n0, rest) == removed);
    if dead {
        let cs1 = cs0.remove(i);
        lemma_count_seq_remove(cs0, i);
        assert(count(n1) + 1 == count(n0));
        assert(wf_node(n1)) by {
            assert(forall|j: int|
                0 <= j < cs1.len() ==> cs1[j] == (if j < i {
                    cs0[j]
                } else {
                    cs0[j + 1]
                }));
            assert forall|j: int|
                0 <= j < cs1.len() && is_catchall_seg(#[trigger] cs1[j].prefix@) implies cs1.len()
                == 1 by {
                if j < i {
                    assert(cs1[j] == cs0[j]);
                } else {
                    assert(cs1[j] == cs0[j + 1]);
                }
            }
            if is_param_seg(n1.prefix@) {
                assert forall|j: int| 0 <= j < cs1.len() implies (#[trigger] cs1[j].prefix@)[0]
                    == '/' by {
                    if j < i {
                        assert(cs1[j] == cs0[j]);
                    } else {
                        assert(cs1[j] == cs0[j + 1]);
                    }
                }
            }
        }
        assert forall|p: Seq<char>| #![auto]
            sub_route(n1, p) == (if p == rest {
                None::<T>
            } else {
                sub_route(n0, p)
            }) by {
            if p.len() == 0 {
                assert(p != rest);
            } else if p[0] == cs0[i].prefix@[0] {
                assert(children_route(cs1, p) == None::<T>) by {
                    assert(forall|j: int|
                        0 <= j < cs1.len() ==> (#[trigger] cs1[j].prefix@).len() > 0);
                    assert forall|j: int| 0 <= j < cs1.len() implies p[0]
                        != (#[trigger] cs1[j].prefix@)[0] by {
                        if j < i {
                            assert(cs1[j] == cs0[j]);
                        } else {
                            assert(cs1[j] == cs0[j + 1]);
                        }
                    }
                    lemma_cr_none(cs1, p);
                }
                lemma_cr_at(cs0, i, p);
                assert(node_route(cs0[i], p) == (if p == rest {
                    removed
                } else {
                    None::<T>
                }));
            } else {
                if exists|j: int| 0 <= j < cs0.len() && p[0] == (#[trigger] cs0[j].prefix@)[0] {
                    let j = choose|j: int|
                        0 <= j < cs0.len() && p[0] == (#[trigger] cs0[j].prefix@)[0];
                    assert(j != i);
                    lemma_cr_at(cs0, j, p);
                    let j1: int = if j < i {
                        j
                    } else {
                        j - 1
                    };
                    assert(cs1[j1] == cs0[j]);
                    assert(distinct_heads(cs1)) by {
                        assert(forall|k: int|
                            0 <= k < cs1.len() ==> cs1[k] == (if k < i {
                                cs0[k]
                            } else {
                                cs0[k + 1]
                            }));
                    }
                    lemma_cr_at(cs1, j1, p);
                } else {
                    lemma_cr_none(cs0, p);
                    assert(forall|j: int|
                        0 <= j < cs1.len() ==> (#[trigger] cs1[j].prefix@).len() > 0);
                    assert forall|j: int| 0 <= j < cs1.len() implies p[0]
                        != (#[trigger] cs1[j].prefix@)[0] by {
                        if j < i {
                            assert(cs1[j] == cs0[j]);
                        } else {
                            assert(cs1[j] == cs0[j + 1]);
                        }
                    }
                    lemma_cr_none(cs1, p);
                }
                assert(p != rest);
            }
        }
    } else {
        let cs1 = cs0.update(i, fc);
        lemma_count_seq_update(cs0, i, fc);
        assert(count(n1) + 1 == count(n0));
        assert(wf_node(n1)) by {
            assert(forall|j: int| 0 <= j < cs1.len() && j != i ==> cs1[j] == cs0[j]);
            assert(cs1[i] == fc);
            assert forall|j: int|
                0 <= j < cs1.len() && is_catchall_seg(#[trigger] cs1[j].prefix@) implies cs1.len()
                == 1 by {
                if j != i {
                    assert(cs1[j] == cs0[j]);
                } else {
                    assert(is_catchall_seg(cs0[i].prefix@));
                    assert(cs0.len() == 1);
                }
            }
            if is_param_seg(n1.prefix@) {
                assert forall|j: int| 0 <= j < cs1.len() implies (#[trigger] cs1[j].prefix@)[0]
                    == '/' by {
                    if j != i {
                        assert(cs1[j] == cs0[j]);
                    } else {
                        assert(cs1[j].prefix@[0] == cs0[j].prefix@[0]);
                    }
                }
            }
        }
        assert forall|p: Seq<char>| #![auto]
            sub_route(n1, p) == (if p == rest {
                None::<T>
            } else {
                sub_route(n0, p)
            }) by {
            lemma_update_dispatch(cs0, i, fc, p);
            if p.len() == 0 {
                assert(p != rest);
            } else if p[0] == cs0[i].prefix@[0] {
            } else {
                assert(p != rest);
            }
        }
    }
}

/// Removes the route stored under the pattern tail that starts at `pos`,
/// the prefix of `n` itself already consumed, and compacts the subtree.
pub(crate) fn remove_rec<T>(n: &mut Node<T>, pat: &str, pos: usize) -> (r: Option<T>)
    requires
        wf_node(*old(n)),
        pos <= pat@.len(),
    ensures
        wf_node(*final(n)),
        final(n).prefix@ == old(n).prefix@,
        final(n).children@.len() <= old(n).children@.len(),
        r == sub_route(*old(n), pat@.skip(pos as int)),
        r is Some ==> count(*final(n)) + 1 == count(*old(n)),
        r is None ==> count(*final(n)) == count(*old(n)) && final(n).value == old(n).value,
        r is Some ==> forall|p: Seq<char>| #![auto]
            sub_route(*final(n), p) == (if p == pat@.skip(pos as int) {
                None::<T>
            } else {
                sub_route(*old(n), p)
            }),
        r is None ==> forall|p: Seq<char>| #![auto] sub_route(*final(n), p) == sub_route(*old(n), p),
    decreases pat@.len() - pos,
{
    let n_len = pat.unicode_len();
    let ghost rest = pat@.skip(pos as int);
    if pos == n_len {
        proof {
            assert(rest =~= Seq::<char>::empty());
        }
        if n.value.is_some() {
            let v = n.value.take();
            n.priority = n.priority - 1;
            proof {
                assert(count(*n) + 1 == count(*old(n)));
                assert(wf_node(*n));
                assert forall|p: Seq<char>| #![auto]
                    sub_route(*n, p) == (if p == rest {
                        None::<T>
                    } else {
                        sub_route(*old(n), p)
                    }) by {
                    if p.len() == 0 {
                        assert(p =~= rest);
                    } else {
                        assert(p != rest);
                    }
                }
            }
            return v;
        }
        return None;
    }
    let c0 = pat.get_char(pos);
    proof {
        assert(rest.len() > 0);
        assert(rest[0] == pat@[pos as int]);
        lemma_wf_heads(*n);
    }
    let ghost cs0 = n.children@;
    let i = match find_child(&n.children, c0) {
        Some(i) => i,
        None => {
            proof {
                lemma_cr_none(cs0, rest);
            }
            return None;
        },
    };
    proof {
        assert(child_ok(cs0[i as int]) && wf_node(cs0[i as int]));
    }
    if !is_prefix_at(n.children[i].prefix.as_str(), pat, pos) {
        proof {
            lemma_cr_at(cs0, i as int, rest);
        }
        return None;
    }
    let plen = n.children[i].prefix.unicode_len();
    let mut child = n.children.remove(i);
    let ghost orig_child = child;
    let ghost crest = rest.skip(plen as int);
    proof {
        assert(pat@.skip((pos + plen) as int) =~= crest);
        lemma_count_seq_ge(cs0, i as int);
    }
    let r = remove_rec(&mut child, pat, pos + plen);
    let ghost fin_child = child;
    if r.is_none() {
        n.children.insert(i, child);
        proof {
            assert(n.children@ =~= cs0.update(i as int, fin_child));
            assert forall|p: Seq<char>| #![auto]
                node_route(fin_child, p) == node_route(orig_child, p) by {
                if orig_child.prefix@.is_prefix_of(p) {
                    let q = p.skip(orig_child.prefix@.len() as int);
                    assert(sub_route(fin_child, q) == sub_route(orig_child, q));
                }
            }
            assert(child_ok(fin_child)) by {
                if is_catchall_seg(fin_child.prefix@) {
                    assert(is_catchall_seg(orig_child.prefix@));
                    assert(orig_child.children@.len() == 0);
                    assert(fin_child.children@.len() == 0);
                    assert(fin_child.value == orig_child.value);
                }
            }
            lemma_cr_at(cs0, i as int, rest);
            assert forall|p: Seq<char>| #![auto] sub_route(*n, p) == sub_route(*old(n), p) by {
                lemma_update_dispatch(cs0, i as int, fin_child, p);
            }
            lemma_count_seq_update(cs0, i as int, fin_child);
            assert(wf_node(*n)) by {
                let cs1 = cs0.update(i as int, fin_child);
                assert(forall|j: int| 0 <= j < cs1.len() && j != i ==> cs1[j] == cs0[j]);
                assert(cs1[i as int] == fin_child);
                assert forall|j: int|
                    0 <= j < cs1.len() && is_catchall_seg(#[trigger] cs1[j].prefix@) implies cs1.len()
                    == 1 by {
                    if j != i {
                        assert(cs1[j] == cs0[j]);
                    } else {
                        assert(is_catchall_seg(cs0[i as int].prefix@));
                    }
                }
            }
        }
        return None;
    }
    n.priority = n.priority - 1;
    if child.value.is_none() && child.children.len() == 0 {
        // the child holds nothing any more: drop it
        proof {
            assert(n.children@ == cs0.remove(i as int));
            lemma_node_sub_bridge(orig_child, fin_child, rest, crest, None::<T>);
            assert(count(fin_child) == 0);
            assert(count(orig_child) == 1);
            assert forall|p: Seq<char>| p != rest implies #[trigger] node_route(
                orig_child,
                p,
            ) == None::<T> by {
                assert(sub_route(fin_child, p.skip(orig_child.prefix@.len() as int)) == None::<T>);
                assert(node_route(fin_child, p) == None::<T>);
            }
            remove_child_compose(*old(n), *n, cs0, i as int, fin_child, rest, r, true);
        }
        return r;
    }
    let mut merged = false;
    if child.value.is_none() && child.children.len() == 1 {
        let child_static = child.prefix.as_str().get_char(0) != '{';
        let gc_static = child.children[0].prefix.as_str().get_char(0) != '{';
        if child_static && gc_static {
            // merge the pass-through child with its only grandchild
            let ghost mid = child;
            let mut gc = child.children.remove(0);
            let ghost gc0 = gc;
            let np = child.prefix.clone().concat(gc.prefix.as_str());
            gc.prefix = np;
            proof {
                assert(wf_node(mid));
                assert(mid.children@[0] == gc0);
                assert(mid.children@ =~= seq![gc0]);
                assert(wf_node(gc0) && child_ok(gc0));
                assert(gc.prefix@ == mid.prefix@ + gc0.prefix@);
                assert(gc.children == gc0.children && gc.value == gc0.value);
                assert forall|p: Seq<char>| #![auto]
                    node_route(gc, p) == node_route(mid, p) by {
                    assert(mid.children@ == seq![gc0]);
                    lemma_passthrough(mid, gc0, gc, p);
                }
                assert(!is_param_seg(gc.prefix@) && !is_param_seg(gc0.prefix@)) by {
                    assert(gc.prefix@[0] == mid.prefix@[0]);
                    if is_param_seg(gc.prefix@) {
                        assert(gc.prefix@[0] == '{');
                    }
                    if is_param_seg(gc0.prefix@) {
                        assert(gc0.prefix@[0] == '{');
                    }
                }
                assert(wf_node(gc) && count(gc) == count(mid)) by {
                    lemma_same_view_node(gc, gc0);
                    assert(count(mid) == count(gc0)) by {
                        assert(mid.children@[0] == gc0);
                        assert(mid.children@.drop_first() =~= Seq::<Node<T>>::empty());
                        assert(count_seq(Seq::<Node<T>>::empty()) == 0nat);
                    }
                }
                assert(child_ok(gc)) by {
                    assert(brace_free(mid.prefix@)) by {
                        if is_param_seg(mid.prefix@) || is_catchall_seg(mid.prefix@) {
                            assert(mid.prefix@[0] == '{');
                        }
                    }
                    assert(brace_free(gc0.prefix@)) by {
                        if is_param_seg(gc0.prefix@) || is_catchall_seg(gc0.prefix@) {
                            assert(gc0.prefix@[0] == '{');
                        }
                    }
                    assert forall|k: int| 0 <= k < gc.prefix@.len() implies gc.prefix@[k]
                        != '{' by {
                        if k < mid.prefix@.len() {
                            assert(gc.prefix@[k] == mid.prefix@[k]);
                        } else {
                            assert(gc.prefix@[k] == gc0.prefix@[k - mid.prefix@.len()]);
                        }
                    }
                }
                lemma_node_sub_bridge(orig_child, mid, rest, crest, None::<T>);
                assert forall|p: Seq<char>| #![auto]
                    node_route(gc, p) == (if p == rest {
                        None::<T>
                    } else {
                        node_route(orig_child, p)
                    }) by {
                    assert(node_route(gc, p) == node_route(mid, p));
                }
            }
            n.children.insert(i, gc);
            let ghost kept = gc;
            proof {
                assert(n.children@ =~= cs0.update(i as int, kept));
                assert(kept.prefix@[0] == orig_child.prefix@[0]) by {
                    assert(kept.prefix@[0] == mid.prefix@[0]);
                }
                remove_child_compose(*old(n), *n, cs0, i as int, kept, rest, r, false);
            }
            merged = true;
        }
    }
    if !merged {
        // keep the child in place
        proof {
            lemma_node_sub_bridge(orig_child, fin_child, rest, crest, None::<T>);
            assert(child_ok(fin_child)) by {
                if is_catchall_seg(fin_child.prefix@) {
                    assert(is_catchall_seg(orig_child.prefix@));
                    assert(orig_child.children@.len() == 0);
                    assert(fin_child.children@.len() == 0);
                    assert(fin_child.value is Some);
                }
            }
        }
        n.children.insert(i, child);
        proof {
            assert(n.children@ =~= cs0.update(i as int, fin_child));
            remove_child_compose(*old(n), *n, cs0, i as int, fin_child, rest, r, false);
        }
    }
    return r;
}

/// Views determine routes and counts, whatever the prefix.
proof fn lemma_same_view_node<T>(a: Node<T>, b: Node<T>)
    requires
        a.value == b.value,
        a.priority == b.priority,
        a.children@ == b.children@,
        is_param_seg(a.prefix@) == is_param_seg(b.prefix@),
    ensures
        wf_node(a) == wf_node(b),
        count(a) == count(b),
        forall|p: Seq<char>| #![auto] sub_route(a, p) == sub_route(b, p),
{
    assert(count(a) == count(b)) by {
        assert(count_seq(a.children@) == count_seq(b.children@));
    }
    assert(wf_node(a) == wf_node(b)) by {
        assert(forall|i: int| 0 <= i < a.children@.len() ==> a.children@[i] == b.children@[i]);
    }
    assert forall|p: Seq<char>| #![auto] sub_route(a, p) == sub_route(b, p) by {
        if p.len() != 0 {
            assert(children_route(a.children@, p) == children_route(b.children@, p));
        }
    }
}


// ---------------------------------------------------------------------------
// Matching.
// ---------------------------------------------------------------------------
/// Does the pattern match the path?  Static text matches itself, `{name}`
/// matches one non-empty segment, `{*name}` matches the non-empty rest.
pub open spec fn pat_matches(pat: Seq<char>, path: Seq<char>) -> bool
    decreases pat.len(),
    via matches_dec
{
    if pat.len() == 0 {
        path.len() == 0
    } else if pat[0] != '{' {
        path.len() > 0 && path[0] == pat[0] && pat_matches(pat.skip(1), path.skip(1))
    } else if pat.len() >= 2 && pat[1] == '*' {
        path.len() > 0
    } else {
        let e = seg_end(pat);
        let s = seg_end(path);
        s > 0 && pat_matches(pat.skip(e), path.skip(s))
    }
}

#[via_fn]
proof fn matches_dec(pat: Seq<char>, path: Seq<char>) {
    lemma_seg_end(pat);
}

/// The parameters a matching pattern extracts from a path, in path order.
pub open spec fn extract(pat: Seq<char>, path: Seq<char>) -> Seq<(Seq<char>, Seq<char>)>
    decreases pat.len(),
    via extract_dec
{
    if pat.len() == 0 || path.len() == 0 {
        Seq::empty()
    } else if pat[0] != '{' {
        extract(pat.skip(1), path.skip(1))
    } else if pat.len() >= 2 && pat[1] == '*' {
        let e = seg_end(pat);
        seq![(pat.subrange(2, e - 1), path)]
    } else {
        let e = seg_end(pat);
        let s = seg_end(path);
        seq![(pat.subrange(1, e - 1), path.subrange(0, s))] + extract(pat.skip(e), path.skip(s))
    }
}

#[via_fn]
proof fn extract_dec(pat: Seq<char>, path: Seq<char>) {
    lemma_seg_end(pat);
}

/// Consuming a matched run of static text commutes with `matches` and
/// `extract`.
pub(crate) proof fn lemma_matches_static(a: Seq<char>, pt: Seq<char>, path: Seq<char>)
    requires
        brace_free(a),
        a.is_prefix_of(path),
    ensures
        pat_matches(a + pt, path) == pat_matches(pt, path.skip(a.len() as int)),
        extract(a + pt, path) == extract(pt, path.skip(a.len() as int)),
    decreases a.len(),
{
    if a.len() == 0 {
        assert(a + pt =~= pt);
        assert(path.skip(0) =~= path);
    } else {
        assert((a + pt)[0] == a[0]);
        assert(path.subrange(0, a.len() as int)[0] == path[0]);
        assert(path.len() > 0 && path[0] == a[0]);
        assert(a[0] != '{');
        assert((a + pt).skip(1) =~= a.skip(1) + pt);
        assert(a.skip(1).is_prefix_of(path.skip(1))) by {
            assert(forall|k: int|
                0 <= k < a.len() ==> a[k] == path.subrange(0, a.len() as int)[k]);
            assert(a.skip(1) =~= path.skip(1).subrange(0, a.len() - 1));
        }
        assert(brace_free(a.skip(1)));
        lemma_matches_static(a.skip(1), pt, path.skip(1));
        assert(path.skip(1).skip(a.len() - 1) =~= path.skip(a.len() as int));
        assert(path.len() > 0);
    }
}

/// A parameter segment followed by a matching continuation matches a path
/// whose first segment is non-empty, binding that segment.
pub(crate) proof fn lemma_matches_param(w: Seq<char>, pt: Seq<char>, path: Seq<char>, s: int)
    requires
        is_param_seg(w),
        s == seg_end(path),
        s > 0,
        pt.len() == 0 || pt[0] == '/',
        pat_matches(pt, path.skip(s)),
    ensures
        pat_matches(w + pt, path),
        extract(w + pt, path) == seq![(param_name(w), path.subrange(0, s))] + extract(
            pt,
            path.skip(s),
        ),
{
    let pat = w + pt;
    lemma_wild_chars(w);
    assert(pat[0] == w[0] && pat[0] == '{');
    assert(pat[1] == w[1] && pat[1] != '*');
    assert(seg_end(pat) == w.len()) by {
        assert(forall|k: int| 0 <= k < w.len() ==> pat[k] == w[k]);
        if w.len() < pat.len() {
            assert(pat[w.len() as int] == pt[0]);
            lemma_seg_end_is(pat, w.len() as int);
        } else {
            lemma_seg_end_is(pat, w.len() as int);
        }
    }
    lemma_seg_end(path);
    assert(path.len() > 0);
    assert(pat.skip(w.len() as int) =~= pt);
    assert(pat_matches(pat, path));
    assert(pat.subrange(1, seg_end(pat) - 1) =~= param_name(w));
}

/// A catch-all segment matches any non-empty path remainder, binding it
/// whole.
pub(crate) proof fn lemma_matches_catchall(w: Seq<char>, path: Seq<char>)
    requires
        is_catchall_seg(w),
        path.len() > 0,
    ensures
        pat_matches(w, path),
        extract(w, path) == seq![(catchall_name(w), path)],
{
    lemma_wild_chars(w);
    lemma_seg_end_is(w, w.len() as int);
    assert(w.subrange(2, seg_end(w) - 1) =~= catchall_name(w));
}

/// Nothing but the empty pattern matches the empty path.
pub(crate) proof fn lemma_matches_empty_path(pt: Seq<char>)
    requires
        pat_matches(pt, Seq::<char>::empty()),
    ensures
        pt.len() == 0,
{
    if pt.len() > 0 {
        lemma_seg_end(Seq::<char>::empty());
    }
}

/// A match through a run of static text forces the path to start with it.
pub(crate) proof fn lemma_matches_static_needed(a: Seq<char>, pt: Seq<char>, path: Seq<char>)
    requires
        brace_free(a),
        pat_matches(a + pt, path),
    ensures
        a.is_prefix_of(path),
    decreases a.len(),
{
    if a.len() == 0 {
        assert(a =~= path.subrange(0, 0));
    } else {
        assert((a + pt)[0] == a[0]);
        assert(a[0] != '{');
        assert(path.len() > 0 && path[0] == a[0]);
        assert((a + pt).skip(1) =~= a.skip(1) + pt);
        assert(brace_free(a.skip(1)));
        lemma_matches_static_needed(a.skip(1), pt, path.skip(1));
        assert(a.skip(1) =~= path.skip(1).subrange(0, a.len() - 1));
        assert(a.len() <= path.len());
        assert(forall|k: int| 0 <= k < a.len() - 1 ==> a.skip(1)[k] == path.skip(1)[k]);
        assert forall|k: int| 0 <= k < a.len() implies a[k] == path[k] by {
            if k >= 1 {
                assert(a[k] == a.skip(1)[k - 1]);
                assert(path[k] == path.skip(1)[k - 1]);
            }
        }
        assert(a =~= path.subrange(0, a.len() as int));
    }
}

/// A parameter segment followed by a `/`-continuation forms a pattern
/// whose first segment is exactly the parameter segment.
pub(crate) proof fn lemma_param_align(w: Seq<char>, pt: Seq<char>)
    requires
        is_param_seg(w),
        pt.len() == 0 || pt[0] == '/',
    ensures
        seg_end(w + pt) == w.len(),
        (w + pt)[0] == '{',
        (w + pt)[1] != '*',
        (w + pt).skip(w.len() as int) == pt,
{
    let pat = w + pt;
    lemma_wild_chars(w);
    assert(forall|k: int| 0 <= k < w.len() ==> pat[k] == w[k]);
    if w.len() < pat.len() {
        assert(pat[w.len() as int] == pt[0]);
        lemma_seg_end_is(pat, w.len() as int);
    } else {
        lemma_seg_end_is(pat, w.len() as int);
    }
    assert(pat.skip(w.len() as int) =~= pt);
}

/// A successful dispatch goes through some child whose prefix starts the
/// pattern.
proof fn lemma_cr_some_child<T>(cs: Seq<Node<T>>, pat: Seq<char>)
    requires
        children_route(cs, pat) is Some,
    ensures
        exists|j: int| 0 <= j < cs.len() && (#[trigger] cs[j].prefix@).is_prefix_of(pat),
    decreases cs,
{
    if cs.len() == 0 {
    } else if cs[0].prefix@.is_prefix_of(pat) {
        assert(0 <= 0 < cs.len() && cs[0].prefix@.is_prefix_of(pat));
    } else {
        lemma_cr_some_child(cs.drop_first(), pat);
        let j = choose|j: int|
            0 <= j < cs.drop_first().len() && (#[trigger] cs.drop_first()[j].prefix@).is_prefix_of(
                pat,
            );
        assert(cs[j + 1] == cs.drop_first()[j]);
        assert(cs[j + 1].prefix@.is_prefix_of(pat));
    }
}

/// No registered pattern beginning with `c` matches the remaining path.
pub(crate) open spec fn no_match_via<T>(n: Node<T>, rest: Seq<char>, c: char) -> bool {
    forall|pt: Seq<char>|
        pt.len() > 0 && pt[0] == c && (#[trigger] sub_route(n, pt)) is Some ==> !pat_matches(
            pt,
            rest,
        )
}

/// Depth-first search with backtracking: static children first, then the
/// wildcard child.  On success the returned value belongs to a registered
/// pattern that matches the remaining path, and `params` has gained
/// exactly that pattern's bindings.
pub(crate) fn search_rec<'a, T>(n: &'a Node<T>, path: &str, pos: usize, params: &mut Params) -> (r: Option<
    &'a T,
>)
    requires
        wf_node(*n),
        pos <= path@.len(),
    ensures
        r is None ==> final(params).pairs() == old(params).pairs(),
        r matches Some(v) ==> exists|pt: Seq<char>|
            {
                &&& #[trigger] sub_route(*n, pt) == Some(*v)
                &&& pat_matches(pt, path@.skip(pos as int))
                &&& final(params).pairs() == old(params).pairs() + extract(
                    pt,
                    path@.skip(pos as int),
                )
                &&& pt.len() == 0 || (exists|j: int|
                    0 <= j < n.children@.len() && pt[0] == (#[trigger] n.children@[j].prefix@)[0])
            },
        brace_free(path@.skip(pos as int)) && sub_route(*n, path@.skip(pos as int)) is Some ==> ({
            &&& r matches Some(v) && sub_route(*n, path@.skip(pos as int)) == Some(*v)
            &&& final(params).pairs() == old(params).pairs()
        }),
        r is None ==> forall|pt: Seq<char>|
            (#[trigger] sub_route(*n, pt)) is Some ==> !pat_matches(pt, path@.skip(pos as int)),
    decreases path@.len() - pos,
{
    let n_path = path.unicode_len();
    let ghost prest = path@.skip(pos as int);
    if pos == n_path {
        proof {
            assert(prest =~= Seq::<char>::empty());
        }
        match &n.value {
            Some(v) => {
                proof {
                    let pt = Seq::<char>::empty();
                    assert(sub_route(*n, pt) == Some(*v));
                    assert(pat_matches(pt, prest));
                    assert(extract(pt, prest) =~= Seq::<(Seq<char>, Seq<char>)>::empty());
                    assert(params.pairs() =~= params.pairs() + extract(pt, prest));
                }
                return Some(v);
            },
            None => {
                proof {
                    assert forall|pt: Seq<char>| (#[trigger] sub_route(*n, pt)) is Some implies
                        !pat_matches(pt, prest) by {
                        if pat_matches(pt, prest) {
                            lemma_matches_empty_path(pt);
                        }
                    }
                }
                return None;
            },
        }
    }
    proof {
        lemma_wf_heads(*n);
    }
    let ghost bflag = brace_free(prest) && sub_route(*n, prest) is Some;
    proof {
        if bflag {
            lemma_cr_some_child(n.children@, prest);
        }
    }
    let ghost di: int = if bflag {
        choose|j: int|
            0 <= j < n.children@.len() && (#[trigger] n.children@[j].prefix@).is_prefix_of(prest)
    } else {
        0
    };
    let nch = n.children.len();
    let mut i: usize = 0;
    while i < nch
        invariant
            wf_node(*n),
            pos < path@.len(),
            n_path == path@.len(),
            nch == n.children@.len(),
            i <= nch,
            prest == path@.skip(pos as int),
            params.pairs() == old(params).pairs(),
            bflag == (brace_free(prest) && sub_route(*n, prest) is Some),
            bflag ==> 0 <= di < nch && n.children@[di].prefix@.is_prefix_of(prest) && i <= di,
            forall|j: int|
                0 <= j < i && (#[trigger] n.children@[j].prefix@)[0] != '{' ==> no_match_via(
                    *n,
                    prest,
                    n.children@[j].prefix@[0],
                ),
        decreases nch - i,
    {
        proof {
            assert(child_ok(n.children@[i as int]) && wf_node(n.children@[i as int]));
        }
        let c = &n.children[i];
        if c.prefix.as_str().get_char(0) != '{' {
            let c_matches = is_prefix_at(c.prefix.as_str(), path, pos);
            if !c_matches {
                proof {
                    lemma_wf_heads(*n);
                    assert(brace_free(c.prefix@)) by {
                        if is_param_seg(c.prefix@) || is_catchall_seg(c.prefix@) {
                            assert(c.prefix@[0] == '{');
                        }
                    }
                    assert forall|pt: Seq<char>|
                        pt.len() > 0 && pt[0] == c.prefix@[0] && (#[trigger] sub_route(
                            *n,
                            pt,
                        )) is Some implies !pat_matches(pt, prest) by {
                        lemma_cr_at(n.children@, i as int, pt);
                        assert(c.prefix@.is_prefix_of(pt));
                        let ptc = pt.skip(c.prefix@.len() as int);
                        assert(pt =~= c.prefix@ + ptc);
                        if pat_matches(pt, prest) {
                            lemma_matches_static_needed(c.prefix@, ptc, prest);
                        }
                    }
                    assert(no_match_via(*n, prest, c.prefix@[0]));
                }
            }
            if c_matches {
                let cplen = c.prefix.unicode_len();
                let ghost pairs0 = params.pairs();
                let rr = search_rec(c, path, pos + cplen, params);
                match rr {
                    Some(v) => {
                        proof {
                            lemma_wf_heads(*n);
                            let crest = path@.skip((pos + cplen) as int);
                            let pt_c = choose|pt_c: Seq<char>|
                                {
                                    &&& #[trigger] sub_route(*c, pt_c) == Some(*v)
                                    &&& pat_matches(pt_c, crest)
                                    &&& params.pairs() == pairs0 + extract(pt_c, crest)
                                    &&& pt_c.len() == 0 || (exists|j: int|
                                        0 <= j < c.children@.len() && pt_c[0]
                                            == (#[trigger] c.children@[j].prefix@)[0])
                                };
                            let pt = c.prefix@ + pt_c;
                            assert(brace_free(c.prefix@)) by {
                                if is_param_seg(c.prefix@) || is_catchall_seg(c.prefix@) {
                                    assert(c.prefix@[0] == '{');
                                }
                            }
                            assert(c.prefix@.is_prefix_of(prest));
                            lemma_matches_static(c.prefix@, pt_c, prest);
                            assert(prest.skip(c.prefix@.len() as int) =~= crest);
                            assert(pat_matches(pt, prest));
                            assert(pt[0] == c.prefix@[0]);
                            lemma_cr_at(n.children@, i as int, pt);
                            assert(c.prefix@.is_prefix_of(pt)) by {
                                assert(c.prefix@ =~= pt.subrange(0, c.prefix@.len() as int));
                            }
                            assert(pt.skip(c.prefix@.len() as int) =~= pt_c);
                            assert(sub_route(*n, pt) == Some(*v));
                            assert(params.pairs() == old(params).pairs() + extract(pt, prest));
                            assert(0 <= i < n.children@.len() && pt[0]
                                == n.children@[i as int].prefix@[0]);
                            if bflag {
                                assert(i == di) by {
                                    if i != di {
                                        assert(n.children@[di].prefix@[0] == prest[0]);
                                        assert(n.children@[i as int].prefix@[0] == prest[0]);
                                    }
                                }
                                lemma_cr_at(n.children@, di, prest);
                                assert(sub_route(*n, prest) == sub_route(
                                    *c,
                                    prest.skip(c.prefix@.len() as int),
                                ));
                                assert(prest.skip(c.prefix@.len() as int) =~= crest);
                                assert(brace_free(crest)) by {
                                    assert(forall|k: int|
                                        0 <= k < crest.len() ==> crest[k] == prest[k
                                            + c.prefix@.len()]);
                                }
                            }
                        }
                        return rr;
                    },
                    None => {
                        proof {
                            if bflag && i == di {
                                lemma_cr_at(n.children@, di, prest);
                                let crest = path@.skip((pos + cplen) as int);
                                assert(prest.skip(c.prefix@.len() as int) =~= crest);
                                assert(brace_free(crest)) by {
                                    assert(forall|k: int|
                                        0 <= k < crest.len() ==> crest[k] == prest[k
                                            + c.prefix@.len()]);
                                }
                                assert(sub_route(*c, crest) is Some);
                                assert(false);
                            }
                            lemma_wf_heads(*n);
                            assert(brace_free(c.prefix@)) by {
                                if is_param_seg(c.prefix@) || is_catchall_seg(c.prefix@) {
                                    assert(c.prefix@[0] == '{');
                                }
                            }
                            let ghost crest = path@.skip((pos + cplen) as int);
                            assert forall|pt: Seq<char>|
                                pt.len() > 0 && pt[0] == c.prefix@[0] && (#[trigger] sub_route(
                                    *n,
                                    pt,
                                )) is Some implies !pat_matches(pt, prest) by {
                                lemma_cr_at(n.children@, i as int, pt);
                                assert(c.prefix@.is_prefix_of(pt));
                                let ptc = pt.skip(c.prefix@.len() as int);
                                assert(pt =~= c.prefix@ + ptc);
                                assert(sub_route(*c, ptc) is Some);
                                if pat_matches(pt, prest) {
                                    lemma_matches_static(c.prefix@, ptc, prest);
                                    assert(prest.skip(c.prefix@.len() as int) =~= crest);
                                    assert(pat_matches(ptc, crest));
                                }
                            }
                            assert(no_match_via(*n, prest, c.prefix@[0]));
                        }
                    },
                }
            }
        }
        proof {
            if bflag && i == di {
                // the dispatch child shares the path's first character and
                // is static, so this very iteration either recursed into it
                // or the prefix test cannot have failed
                assert(n.children@[di].prefix@[0] == prest[0]);
                assert(prest[0] != '{');
                assert(c.prefix@.is_prefix_of(prest));
                assert(false);
            }
            assert forall|j: int|
                0 <= j < i + 1 && (#[trigger] n.children@[j].prefix@)[0] != '{' implies
                no_match_via(*n, prest, n.children@[j].prefix@[0]) by {
                if j == i {
                    assert(n.children@[j] == *c);
                }
            }
        }
        i = i + 1;
    }
    proof {
        if bflag {
            assert(false);
        }
    }
    let wi = match find_child(&n.children, '{') {
        Some(j) => j,
        None => {
            proof {
                lemma_wf_heads(*n);
                assert forall|pt: Seq<char>| (#[trigger] sub_route(*n, pt)) is Some implies
                    !pat_matches(pt, prest) by {
                    if pat_matches(pt, prest) {
                        if pt.len() == 0 {
                            assert(prest.len() == 0);
                        } else {
                            lemma_cr_some_child(n.children@, pt);
                            let j = choose|j: int|
                                0 <= j < n.children@.len() && (#[trigger] n.children@[j].prefix@).is_prefix_of(
                                    pt,
                                );
                            let h = n.children@[j].prefix@;
                            assert(h[0] == pt[0]) by {
                                assert(h[0] == pt.subrange(0, h.len() as int)[0]);
                            }
                            assert(h[0] != '{');
                            assert(no_match_via(*n, prest, h[0]));
                        }
                    }
                }
            }
            return None;
        },
    };
    proof {
        assert(child_ok(n.children@[wi as int]) && wf_node(n.children@[wi as int]));
        assert(!brace_free(n.children@[wi as int].prefix@));
        assert(is_param_seg(n.children@[wi as int].prefix@) || is_catchall_seg(
            n.children@[wi as int].prefix@,
        ));
        assert(n.children@[wi as int].prefix@.len() >= 3);
    }
    let c = &n.children[wi];
    let cplen = c.prefix.unicode_len();
    if c.prefix.as_str().get_char(1) == '*' {
        // catch-all: it consumes the whole non-empty remainder
        proof {
            assert(is_catchall_seg(c.prefix@)) by {
                if is_param_seg(c.prefix@) {
                    assert(c.prefix@[1] != '*');
                }
            }
        }
        match &c.value {
            Some(v) => {
                let name = c.prefix.as_str().substring_char(2, cplen - 1);
                let val = path.substring_char(pos, n_path);
                params.push(name, val);
                proof {
                    let pt = c.prefix@;
                    lemma_matches_catchall(pt, prest);
                    lemma_cr_at(n.children@, wi as int, pt);
                    assert(pt.is_prefix_of(pt)) by {
                        assert(pt =~= pt.subrange(0, pt.len() as int));
                    }
                    assert(pt.skip(pt.len() as int) =~= Seq::<char>::empty());
                    assert(sub_route(*c, Seq::<char>::empty()) == Some(*v));
                    assert(sub_route(*n, pt) == Some(*v));
                    assert(name@ == catchall_name(pt)) by {
                        assert(name@ =~= catchall_name(pt));
                    }
                    assert(val@ =~= prest);
                    assert(params.pairs() =~= old(params).pairs() + extract(pt, prest));
                }
                return Some(v);
            },
            None => {
                proof {
                    assert(false);
                }
                return None;
            },
        }
    }
    // parameter: it consumes one non-empty segment
    proof {
        assert(is_param_seg(c.prefix@)) by {
            if is_catchall_seg(c.prefix@) {
                assert(c.prefix@[1] == '*');
            }
        }
    }
    let s = find_slash(path, pos);
    if s == pos {
        proof {
            lemma_wf_heads(*n);
            assert(path@[pos as int] == '/');
            assert forall|pt: Seq<char>| (#[trigger] sub_route(*n, pt)) is Some implies
                !pat_matches(pt, prest) by {
                if pat_matches(pt, prest) {
                    if pt.len() == 0 {
                        assert(prest.len() == 0);
                    } else if pt[0] != '{' {
                        lemma_cr_some_child(n.children@, pt);
                        let j = choose|j: int|
                            0 <= j < n.children@.len() && (#[trigger] n.children@[j].prefix@).is_prefix_of(
                                pt,
                            );
                        let h = n.children@[j].prefix@;
                        assert(h[0] == pt[0]) by {
                            assert(h[0] == pt.subrange(0, h.len() as int)[0]);
                        }
                        assert(no_match_via(*n, prest, h[0]));
                    } else {
                        lemma_cr_some_child(n.children@, pt);
                        let j = choose|j: int|
                            0 <= j < n.children@.len() && (#[trigger] n.children@[j].prefix@).is_prefix_of(
                                pt,
                            );
                        assert(n.children@[j].prefix@[0] == pt[0]) by {
                            assert(n.children@[j].prefix@[0] == pt.subrange(
                                0,
                                n.children@[j].prefix@.len() as int,
                            )[0]);
                        }
                        assert(j == wi);
                        let w = c.prefix@;
                        lemma_cr_at(n.children@, wi as int, pt);
                        assert(w.is_prefix_of(pt));
                        let ptc = pt.skip(w.len() as int);
                        assert(pt =~= w + ptc);
                        assert(sub_route(*c, ptc) is Some);
                        assert(ptc.len() == 0 || ptc[0] == '/') by {
                            if ptc.len() > 0 {
                                lemma_cr_some_child(c.children@, ptc);
                                let k = choose|k: int|
                                    0 <= k < c.children@.len() && (#[trigger] c.children@[k].prefix@).is_prefix_of(
                                        ptc,
                                    );
                                assert(c.children@[k].prefix@[0] == ptc[0]) by {
                                    assert(c.children@[k].prefix@[0] == ptc.subrange(
                                        0,
                                        c.children@[k].prefix@.len() as int,
                                    )[0]);
                                }
                                assert(c.children@[k].prefix@[0] == '/');
                            }
                        }
                        lemma_param_align(w, ptc);
                        assert(prest[0] == '/');
                        lemma_seg_end_is(prest, 0);
                        assert(!pat_matches(pt, prest));
                    }
                }
            }
        }
        return None;
    }
    let name = c.prefix.as_str().substring_char(1, cplen - 1);
    let val = path.substring_char(pos, s);
    let len0 = params.len();
    let ghost pairs0 = params.pairs();
    params.push(name, val);
    let ghost pairs1 = params.pairs();
    let rr = search_rec(c, path, s, params);
    match rr {
        Some(v) => {
            proof {
                lemma_wf_heads(*n);
                let crest = path@.skip(s as int);
                let pt_c = choose|pt_c: Seq<char>|
                    {
                        &&& #[trigger] sub_route(*c, pt_c) == Some(*v)
                        &&& pat_matches(pt_c, crest)
                        &&& params.pairs() == pairs1 + extract(pt_c, crest)
                        &&& pt_c.len() == 0 || (exists|j: int|
                            0 <= j < c.children@.len() && pt_c[0]
                                == (#[trigger] c.children@[j].prefix@)[0])
                    };
                let pt = c.prefix@ + pt_c;
                assert(pt_c.len() == 0 || pt_c[0] == '/') by {
                    if pt_c.len() > 0 {
                        let j = choose|j: int|
                            0 <= j < c.children@.len() && pt_c[0]
                                == (#[trigger] c.children@[j].prefix@)[0];
                        assert(c.children@[j].prefix@[0] == '/');
                    }
                }
                let ghost sl = (s - pos) as int;
                lemma_seg_end_is(prest, sl);
                assert(prest.skip(sl) =~= crest);
                lemma_matches_param(c.prefix@, pt_c, prest, sl);
                assert(pat_matches(pt, prest));
                assert(pt[0] == c.prefix@[0]);
                lemma_cr_at(n.children@, wi as int, pt);
                assert(c.prefix@.is_prefix_of(pt)) by {
                    assert(c.prefix@ =~= pt.subrange(0, c.prefix@.len() as int));
                }
                assert(pt.skip(c.prefix@.len() as int) =~= pt_c);
                assert(sub_route(*n, pt) == Some(*v));
                assert(name@ == param_name(c.prefix@)) by {
                    assert(name@ =~= param_name(c.prefix@));
                }
                assert(val@ =~= prest.subrange(0, sl));
                assert(pairs1 =~= pairs0 + seq![(param_name(c.prefix@), prest.subrange(0, sl))]);
                assert(params.pairs() =~= pairs0 + extract(pt, prest));
            }
            return rr;
        },
        None => {
            params.truncate(len0);
            proof {
                assert(pairs1.len() == pairs0.len() + 1);
                assert(params.pairs() =~= pairs0) by {
                    assert(params.pairs() == pairs1.take(len0 as int));
                    assert(pairs1.take(len0 as int) =~= pairs0);
                }
                lemma_wf_heads(*n);
                let ghost crest = path@.skip(s as int);
                assert forall|pt: Seq<char>| (#[trigger] sub_route(*n, pt)) is Some implies
                    !pat_matches(pt, prest) by {
                    if pat_matches(pt, prest) {
                        if pt.len() == 0 {
                            assert(prest.len() == 0);
                        } else if pt[0] != '{' {
                            lemma_cr_some_child(n.children@, pt);
                            let j = choose|j: int|
                                0 <= j < n.children@.len() && (#[trigger] n.children@[j].prefix@).is_prefix_of(
                                    pt,
                                );
                            let h = n.children@[j].prefix@;
                            assert(h[0] == pt[0]) by {
                                assert(h[0] == pt.subrange(0, h.len() as int)[0]);
                            }
                            assert(no_match_via(*n, prest, h[0]));
                        } else {
                            lemma_cr_some_child(n.children@, pt);
                            let j = choose|j: int|
                                0 <= j < n.children@.len() && (#[trigger] n.children@[j].prefix@).is_prefix_of(
                                    pt,
                                );
                            assert(n.children@[j].prefix@[0] == pt[0]) by {
                                assert(n.children@[j].prefix@[0] == pt.subrange(
                                    0,
                                    n.children@[j].prefix@.len() as int,
                                )[0]);
                            }
                            assert(j == wi);
                            let w = c.prefix@;
                            lemma_cr_at(n.children@, wi as int, pt);
                            assert(w.is_prefix_of(pt));
                            let ptc = pt.skip(w.len() as int);
                            assert(pt =~= w + ptc);
                            assert(sub_route(*c, ptc) is Some);
                            assert(ptc.len() == 0 || ptc[0] == '/') by {
                                if ptc.len() > 0 {
                                    lemma_cr_some_child(c.children@, ptc);
                                    let k = choose|k: int|
                                        0 <= k < c.children@.len() && (#[trigger] c.children@[k].prefix@).is_prefix_of(
                                            ptc,
                                        );
                                    assert(c.children@[k].prefix@[0] == ptc[0]) by {
                                        assert(c.children@[k].prefix@[0] == ptc.subrange(
                                            0,
                                            c.children@[k].prefix@.len() as int,
                                        )[0]);
                                    }
                                    assert(c.children@[k].prefix@[0] == '/');
                                }
                            }
                            lemma_param_align(w, ptc);
                            lemma_seg_end_is(prest, (s - pos) as int);
                            assert(pat_matches(ptc, prest.skip((s - pos) as int)));
                            assert(prest.skip((s - pos) as int) =~= crest);
                            assert(pat_matches(ptc, crest));
                            assert(!pat_matches(ptc, crest));
                        }
                    }
                }
            }
            return None;
        },
    }
}


/// Replaces the value stored under the pattern tail that starts at `pos`,
/// the prefix of `n` itself already consumed, returning the previous
/// value.  A tail with no value stored is left untouched: this updates,
/// it never registers.
pub(crate) fn update_rec<T>(n: &mut Node<T>, pat: &str, pos: usize, value: T) -> (r: Option<T>)
    requires
        wf_node(*old(n)),
        pos <= pat@.len(),
    ensures
        wf_node(*final(n)),
        final(n).prefix@ == old(n).prefix@,
        final(n).children@.len() == old(n).children@.len(),
        (final(n).value is Some) == (old(n).value is Some),
        count(*final(n)) == count(*old(n)),
        r == sub_route(*old(n), pat@.skip(pos as int)),
        r is Some ==> forall|p: Seq<char>| #![auto]
            sub_route(*final(n), p) == (if p == pat@.skip(pos as int) {
                Some(value)
            } else {
                sub_route(*old(n), p)
            }),
        r is None ==> forall|p: Seq<char>| #![auto] sub_route(*final(n), p) == sub_route(*old(n), p),
    decreases pat@.len() - pos,
{
    let n_len = pat.unicode_len();
    let ghost rest = pat@.skip(pos as int);
    if pos == n_len {
        proof {
            assert(rest =~= Seq::<char>::empty());
        }
        if n.value.is_some() {
            let prev = n.value.take();
            n.value = Some(value);
            proof {
                assert forall|p: Seq<char>| #![auto]
                    sub_route(*n, p) == (if p == rest {
                        Some(value)
                    } else {
                        sub_route(*old(n), p)
                    }) by {
                    if p.len() == 0 {
                        assert(p =~= rest);
                    } else {
                        assert(p != rest);
                    }
                }
            }
            return prev;
        }
        return None;
    }
    let c0 = pat.get_char(pos);
    proof {
        assert(rest.len() > 0);
        assert(rest[0] == pat@[pos as int]);
        lemma_wf_heads(*n);
    }
    let ghost cs0 = n.children@;
    let i = match find_child(&n.children, c0) {
        Some(i) => i,
        None => {
            proof {
                lemma_cr_none(cs0, rest);
            }
            return None;
        },
    };
    proof {
        assert(child_ok(cs0[i as int]) && wf_node(cs0[i as int]));
        lemma_count_seq_ge(cs0, i as int);
    }
    if !is_prefix_at(n.children[i].prefix.as_str(), pat, pos) {
        proof {
            lemma_cr_at(cs0, i as int, rest);
        }
        return None;
    }
    let plen = n.children[i].prefix.unicode_len();
    let ghost crest = rest.skip(plen as int);
    let ghost gv = value;
    proof {
        assert(pat@.skip((pos + plen) as int) =~= crest);
    }
    let c = &mut n.children[i];
    let ghost oc = *c;
    let rr = update_rec(c, pat, pos + plen, value);
    proof {
        let fc = *c;
        assert(n.children@ == cs0.update(i as int, fc));
        lemma_count_seq_update(cs0, i as int, fc);
        lemma_cr_at(cs0, i as int, rest);
        assert(child_ok(fc)) by {
            if is_catchall_seg(fc.prefix@) {
                assert(is_catchall_seg(oc.prefix@));
            }
        }
        assert(wf_node(*n)) by {
            let cs1 = cs0.update(i as int, fc);
            assert(forall|j: int| 0 <= j < cs1.len() && j != i ==> cs1[j] == cs0[j]);
            assert(cs1[i as int] == fc);
            assert forall|j: int|
                0 <= j < cs1.len() && is_catchall_seg(#[trigger] cs1[j].prefix@) implies cs1.len()
                == 1 by {
                if j != i {
                    assert(cs1[j] == cs0[j]);
                } else {
                    assert(is_catchall_seg(cs0[i as int].prefix@));
                }
            }
            if is_param_seg(n.prefix@) {
                assert forall|j: int| 0 <= j < cs1.len() implies (#[trigger] cs1[j].prefix@)[0]
                    == '/' by {
                    if j != i {
                        assert(cs1[j] == cs0[j]);
                    } else {
                        assert(cs1[j].prefix@[0] == cs0[j].prefix@[0]);
                    }
                }
            }
        }
        if rr is Some {
            lemma_node_sub_bridge(oc, fc, rest, crest, Some(gv));
            assert forall|p: Seq<char>| #![auto]
                sub_route(*n, p) == (if p == rest {
                    Some(gv)
                } else {
                    sub_route(*old(n), p)
                }) by {
                lemma_update_dispatch(cs0, i as int, fc, p);
                if p.len() == 0 {
                    assert(p != rest);
                } else if p[0] == cs0[i as int].prefix@[0] {
                } else {
                    assert(p != rest);
                }
            }
        } else {
            assert forall|p: Seq<char>| #![auto] node_route(fc, p) == node_route(oc, p) by {
                if oc.prefix@.is_prefix_of(p) {
                    let q = p.skip(oc.prefix@.len() as int);
                    assert(sub_route(fc, q) == sub_route(oc, q));
                }
            }
            assert forall|p: Seq<char>| #![auto] sub_route(*n, p) == sub_route(*old(n), p) by {
                lemma_update_dispatch(cs0, i as int, fc, p);
            }
        }
    }
    rr
}

/// The round trip of a wildcard-free route: such a pattern matches exactly
/// its own text as a path, and binds no parameters.
pub proof fn lemma_static_round_trip(p: Seq<char>)
    requires
        brace_free(p),
    ensures
        pat_matches(p, p),
        extract(p, p) == Seq::<(Seq<char>, Seq<char>)>::empty(),
    decreases p.len(),
{
    if p.len() == 0 {
    } else {
        assert(brace_free(p.skip(1)));
        lemma_static_round_trip(p.skip(1));
    }
}

} // verus!
