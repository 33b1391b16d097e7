//! The orders in which targets, modules and plans are listed.
//!
//! Names are ordered as `String` is (lexicographically by code point), module
//! paths as `Vec<String>` is (lexicographically by segment), and target
//! identities first by module path, then by name.

use vstd::prelude::*;
use crate::text::text_lt;

verus! {

/// Strict lexicographic order of module paths, segment by segment.
pub open spec fn path_lt(a: Seq<Seq<char>>, b: Seq<Seq<char>>) -> bool
    decreases a.len(),
{
    if b.len() == 0 {
        false
    } else if a.len() == 0 {
        true
    } else if text_lt(a[0], b[0]) {
        true
    } else if a[0] != b[0] {
        false
    } else {
        path_lt(a.drop_first(), b.drop_first())
    }
}

/// Strict order of target identities: by module path, then by name.
pub open spec fn id_lt(a: (Seq<Seq<char>>, Seq<char>), b: (Seq<Seq<char>>, Seq<char>)) -> bool {
    path_lt(a.0, b.0) || (a.0 == b.0 && text_lt(a.1, b.1))
}

/// No sequence precedes itself.
pub proof fn lemma_text_lt_irreflexive(a: Seq<char>)
    ensures
        !text_lt(a, a),
    decreases a.len(),
{
    if a.len() > 0 {
        lemma_text_lt_irreflexive(a.drop_first());
    }
}

/// The order on texts is transitive.
pub proof fn lemma_text_lt_transitive(a: Seq<char>, b: Seq<char>, c: Seq<char>)
    requires
        text_lt(a, b),
        text_lt(b, c),
    ensures
        text_lt(a, c),
    decreases a.len(),
{
    if a.len() > 0 && b.len() > 0 && c.len() > 0 {
        if a[0] == b[0] && b[0] == c[0] {
            lemma_text_lt_transitive(a.drop_first(), b.drop_first(), c.drop_first());
        }
    }
}

/// Two different texts are ordered one way or the other.
pub proof fn lemma_text_lt_total(a: Seq<char>, b: Seq<char>)
    requires
        a != b,
    ensures
        text_lt(a, b) || text_lt(b, a),
    decreases a.len(),
{
    if a.len() > 0 && b.len() > 0 {
        if a[0] == b[0] {
            if a.drop_first() == b.drop_first() {
                assert(a =~= seq![a[0]] + a.drop_first());
                assert(b =~= seq![b[0]] + b.drop_first());
            }
            lemma_text_lt_total(a.drop_first(), b.drop_first());
        }
    } else if a.len() == 0 && b.len() == 0 {
        assert(a =~= b);
    }
}

/// No text precedes a text that precedes it.
pub proof fn lemma_text_lt_asymmetric(a: Seq<char>, b: Seq<char>)
    requires
        text_lt(a, b),
    ensures
        !text_lt(b, a),
{
    if text_lt(b, a) {
        lemma_text_lt_transitive(a, b, a);
        lemma_text_lt_irreflexive(a);
    }
}

/// No path precedes itself.
pub proof fn lemma_path_lt_irreflexive(a: Seq<Seq<char>>)
    ensures
        !path_lt(a, a),
    decreases a.len(),
{
    if a.len() > 0 {
        lemma_text_lt_irreflexive(a[0]);
        lemma_path_lt_irreflexive(a.drop_first());
    }
}

/// The order on paths is transitive.
pub proof fn lemma_path_lt_transitive(a: Seq<Seq<char>>, b: Seq<Seq<char>>, c: Seq<Seq<char>>)
    requires
        path_lt(a, b),
        path_lt(b, c),
    ensures
        path_lt(a, c),
    decreases a.len(),
{
    if a.len() > 0 && b.len() > 0 && c.len() > 0 {
        if text_lt(a[0], b[0]) && text_lt(b[0], c[0]) {
            lemma_text_lt_transitive(a[0], b[0], c[0]);
        } else if a[0] == b[0] && b[0] == c[0] {
            lemma_path_lt_transitive(a.drop_first(), b.drop_first(), c.drop_first());
        }
    }
}

/// Two different paths are ordered one way or the other.
pub proof fn lemma_path_lt_total(a: Seq<Seq<char>>, b: Seq<Seq<char>>)
    requires
        a != b,
    ensures
        path_lt(a, b) || path_lt(b, a),
    decreases a.len(),
{
    if a.len() > 0 && b.len() > 0 {
        if a[0] == b[0] {
            if a.drop_first() == b.drop_first() {
                assert(a =~= seq![a[0]] + a.drop_first());
                assert(b =~= seq![b[0]] + b.drop_first());
            }
            lemma_path_lt_total(a.drop_first(), b.drop_first());
        } else {
            lemma_text_lt_total(a[0], b[0]);
        }
    } else if a.len() == 0 && b.len() == 0 {
        assert(a =~= b);
    }
}

/// No path precedes a path that precedes it.
pub proof fn lemma_path_lt_asymmetric(a: Seq<Seq<char>>, b: Seq<Seq<char>>)
    requires
        path_lt(a, b),
    ensures
        !path_lt(b, a),
{
    if path_lt(b, a) {
        lemma_path_lt_transitive(a, b, a);
        lemma_path_lt_irreflexive(a);
    }
}

/// The order on identities is a strict total order.
pub proof fn lemma_id_lt_order(
    a: (Seq<Seq<char>>, Seq<char>),
    b: (Seq<Seq<char>>, Seq<char>),
    c: (Seq<Seq<char>>, Seq<char>),
)
    ensures
        !id_lt(a, a),
        id_lt(a, b) && id_lt(b, c) ==> id_lt(a, c),
        a != b ==> id_lt(a, b) || id_lt(b, a),
        id_lt(a, b) ==> !id_lt(b, a),
{
    lemma_path_lt_irreflexive(a.0);
    lemma_text_lt_irreflexive(a.1);
    if id_lt(a, b) && id_lt(b, c) {
        if path_lt(a.0, b.0) && path_lt(b.0, c.0) {
            lemma_path_lt_transitive(a.0, b.0, c.0);
        } else if path_lt(a.0, b.0) || path_lt(b.0, c.0) {
        } else {
            lemma_text_lt_transitive(a.1, b.1, c.1);
        }
    }
    if a != b {
        if a.0 != b.0 {
            lemma_path_lt_total(a.0, b.0);
        } else {
            assert(a.1 != b.1);
            lemma_text_lt_total(a.1, b.1);
        }
    }
    if id_lt(a, b) {
        if path_lt(a.0, b.0) {
            lemma_path_lt_asymmetric(a.0, b.0);
        } else {
            lemma_path_lt_irreflexive(a.0);
            lemma_text_lt_asymmetric(a.1, b.1);
        }
    }
}

} // verus!
