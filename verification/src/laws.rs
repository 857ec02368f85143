//! What holds of the parser as a whole: the tree is determined by the run
//! of lexical units alone, and on balanced input its leaves and its nesting
//! depth match the units and the parenthesis nesting of the source.

use vstd::prelude::*;
use crate::lexer::{
    ident_end, ident_run, is_alpha, is_float_literal, is_ident_char, is_number_char,
    is_number_start, is_space, lemma_ident_run_in_bounds, lemma_number_run_in_bounds,
    lemma_space_run_in_bounds, lemma_spec_token_bounds, lemma_trim_idempotent, number_end,
    number_run, space_run, spec_token, TokenModel,
};
use crate::tree::{chars_left, spec_source, TreeModel};

verus! {

broadcast use vstd::seq::group_seq_axioms, vstd::seq_lib::lemma_seq_skip_index;

/// The larger of two counts.
pub open spec fn nat_max(a: nat, b: nat) -> nat {
    if a >= b {
        a
    } else {
        b
    }
}

/// How many items of a run of length `n` lie at or after index `i`.
pub open spec fn items_left(n: int, i: int) -> int {
    if i <= n {
        n - i
    } else {
        0
    }
}

/// The run of lexical units from `pos` on: what repeated requests to the
/// lexer yield until nothing more matches.
pub open spec fn spec_tokens(s: Seq<char>, pos: int) -> Seq<TokenModel>
    decreases chars_left(s, pos),
{
    if !(0 <= pos < s.len()) {
        Seq::<TokenModel>::empty()
    } else {
        let (tp, tok) = spec_token(s, pos);
        match tok {
            None => Seq::<TokenModel>::empty(),
            Some(t) => seq![t] + spec_tokens(s, tp),
        }
    }
}

/// The tree builder replayed over a run of units alone: the count of units
/// it consumes from index `i` on, and the children it accumulates.
pub open spec fn build(ts: Seq<TokenModel>, i: int) -> (nat, Seq<TreeModel>)
    decreases items_left(ts.len() as int, i),
{
    if !(0 <= i < ts.len()) {
        (0, Seq::<TreeModel>::empty())
    } else {
        match ts[i] {
            TokenModel::LParen => {
                let (n1, inner) = build(ts, i + 1);
                let (n2, rest) = build(ts, i + 1 + n1);
                ((1 + n1 + n2) as nat, seq![TreeModel::Node(inner)] + rest)
            },
            TokenModel::RParen => (1, Seq::<TreeModel>::empty()),
            t => {
                let (n2, rest) = build(ts, i + 1);
                ((1 + n2) as nat, seq![TreeModel::Leaf(t)] + rest)
            },
        }
    }
}

/// An identifier or a number: the units that become leaves.
pub open spec fn is_atom(t: TokenModel) -> bool {
    t is Ident || t is Number
}

/// How many atoms lie in the index range `[i, j)` of the run.
pub open spec fn atoms_between(ts: Seq<TokenModel>, i: int, j: int) -> nat
    decreases items_left(j, i),
{
    if i < j {
        (if 0 <= i < ts.len() && is_atom(ts[i]) {
            1nat
        } else {
            0nat
        }) + atoms_between(ts, i + 1, j)
    } else {
        0
    }
}

/// Whether the units from `i` on close every group they open, starting
/// `depth` groups deep, and close no group beyond those.
pub open spec fn balanced_from(ts: Seq<TokenModel>, i: int, depth: int) -> bool
    decreases items_left(ts.len() as int, i),
{
    if 0 <= i < ts.len() {
        match ts[i] {
            TokenModel::LParen => balanced_from(ts, i + 1, depth + 1),
            TokenModel::RParen => depth > 0 && balanced_from(ts, i + 1, depth - 1),
            _ => balanced_from(ts, i + 1, depth),
        }
    } else {
        depth == 0
    }
}

/// A run whose parentheses balance.
pub open spec fn balanced(ts: Seq<TokenModel>) -> bool {
    balanced_from(ts, 0, 0)
}

/// The deepest nesting reached from `i` on, starting `depth` groups deep.
pub open spec fn max_nest_from(ts: Seq<TokenModel>, i: int, depth: nat) -> nat
    decreases items_left(ts.len() as int, i),
{
    if 0 <= i < ts.len() {
        match ts[i] {
            TokenModel::LParen => nat_max(depth, max_nest_from(ts, i + 1, depth + 1)),
            TokenModel::RParen => nat_max(
                depth,
                max_nest_from(
                    ts,
                    i + 1,
                    if depth > 0 {
                        (depth - 1) as nat
                    } else {
                        0
                    },
                ),
            ),
            _ => nat_max(depth, max_nest_from(ts, i + 1, depth)),
        }
    } else {
        depth
    }
}

/// The deepest parenthesis nesting of the run.
pub open spec fn max_nest(ts: Seq<TokenModel>) -> nat {
    max_nest_from(ts, 0, 0)
}

/// How many leaves a tree node holds.
pub open spec fn leaves(m: TreeModel) -> nat
    decreases m, 0int,
{
    match m {
        TreeModel::Leaf(_) => 1,
        TreeModel::Node(cs) => leaves_from(cs, 0),
    }
}

/// How many leaves the nodes from index `i` on hold together.
pub open spec fn leaves_from(cs: Seq<TreeModel>, i: int) -> nat
    decreases cs, items_left(cs.len() as int, i),
{
    if 0 <= i < cs.len() {
        leaves(cs[i]) + leaves_from(cs, i + 1)
    } else {
        0
    }
}

/// How deep a tree node nests: a leaf not at all, a group one more than
/// its deepest child.
pub open spec fn node_depth(m: TreeModel) -> nat
    decreases m, 0int,
{
    match m {
        TreeModel::Leaf(_) => 0,
        TreeModel::Node(cs) => 1 + depth_from(cs, 0),
    }
}

/// The deepest nesting among the nodes from index `i` on.
pub open spec fn depth_from(cs: Seq<TreeModel>, i: int) -> nat
    decreases cs, items_left(cs.len() as int, i),
{
    if 0 <= i < cs.len() {
        nat_max(node_depth(cs[i]), depth_from(cs, i + 1))
    } else {
        0
    }
}

/// Replaying the builder on a run is insensitive to dropping an already
/// consumed prefix.
pub proof fn lemma_build_shift(ts: Seq<TokenModel>, d: int, i: int)
    requires
        0 <= d <= i,
        d <= ts.len(),
    ensures
        build(ts, i) == build(ts.skip(d), i - d),
    decreases items_left(ts.len() as int, i),
{
    if 0 <= i < ts.len() {
        assert(ts.skip(d)[i - d] == ts[i]);
        match ts[i] {
            TokenModel::LParen => {
                lemma_build_shift(ts, d, i + 1);
                let (n1, inner) = build(ts, i + 1);
                lemma_build_shift(ts, d, i + 1 + n1);
            },
            TokenModel::RParen => {
            },
            _ => {
                lemma_build_shift(ts, d, i + 1);
            },
        }
    } else {
        assert(ts.skip(d).len() == ts.len() - d);
    }
}

/// The tree the builder makes of the input is the tree made of its run of
/// lexical units alone, and the characters it consumes cover exactly the
/// units that the unit-level replay consumes.
pub proof fn lemma_source_builds_tokens(s: Seq<char>, pos: int)
    requires
        0 <= pos <= s.len(),
    ensures
        ({
            let ts = spec_tokens(s, pos);
            let (n, cs) = spec_source(s, pos);
            let (k, cs2) = build(ts, 0);
            &&& cs == cs2
            &&& k <= ts.len()
            &&& pos + n <= s.len()
            &&& spec_tokens(s, pos + n) == ts.skip(k as int)
        }),
    decreases chars_left(s, pos),
{
    let ts = spec_tokens(s, pos);
    if pos == s.len() {
        assert(ts =~= Seq::<TokenModel>::empty());
        assert(ts.skip(0) =~= ts);
    } else {
        lemma_spec_token_bounds(s, pos);
        let (tp, tok) = spec_token(s, pos);
        match tok {
            None => {
                assert(ts =~= Seq::<TokenModel>::empty());
                lemma_trim_idempotent(s, pos);
                assert(space_run(s, tp) == 0);
                assert(spec_token(s, tp) == (tp, Option::<TokenModel>::None));
                assert(spec_tokens(s, tp) =~= Seq::<TokenModel>::empty());
                assert(ts.skip(0) =~= ts);
            },
            Some(t) => {
                let ts2 = spec_tokens(s, tp);
                assert(ts == seq![t] + ts2);
                assert(ts[0] == t);
                assert(ts.skip(1) =~= ts2);
                lemma_source_builds_tokens(s, tp);
                let (n1, inner) = spec_source(s, tp);
                let (k1, cs1) = build(ts2, 0);
                lemma_build_shift(ts, 1, 1);
                assert(build(ts, 1) == build(ts2, 0));
                match t {
                    TokenModel::LParen => {
                        lemma_source_builds_tokens(s, tp + n1);
                        let ts3 = spec_tokens(s, tp + n1);
                        assert(ts3 == ts2.skip(k1 as int));
                        let (n2, rest) = spec_source(s, tp + n1);
                        let (k2, cs3) = build(ts3, 0);
                        lemma_build_shift(ts, 1, 1 + k1 as int);
                        lemma_build_shift(ts2, k1 as int, k1 as int);
                        assert(build(ts2, k1 as int) == build(ts3, 0));
                        assert(build(ts, 0).0 == 1 + k1 + k2);
                        assert(build(ts, 0).1 == seq![TreeModel::Node(inner)] + rest);
                        assert(spec_source(s, pos).1 == seq![TreeModel::Node(inner)] + rest);
                        assert(spec_source(s, pos).0 == (tp - pos) + n1 + n2);
                        assert(ts.skip(1 + k1 + k2 as int) =~= ts3.skip(k2 as int)) by {
                            assert(forall|j: int|
                                0 <= j < ts3.len() - k2 ==> ts.skip(1 + k1 + k2 as int)[j] == ts3.skip(
                                    k2 as int,
                                )[j]);
                        }
                        assert(spec_tokens(s, pos + spec_source(s, pos).0) == ts.skip(
                            build(ts, 0).0 as int,
                        ));
                    },
                    TokenModel::RParen => {
                        assert(build(ts, 0).0 == 1);
                        assert(build(ts, 0).1 =~= Seq::<TreeModel>::empty());
                        assert(spec_source(s, pos).1 =~= Seq::<TreeModel>::empty());
                        assert(spec_tokens(s, pos + spec_source(s, pos).0) == ts.skip(1));
                    },
                    _ => {
                        assert(build(ts, 0).0 == 1 + k1);
                        assert(build(ts, 0).1 == seq![TreeModel::Leaf(t)] + cs1);
                        assert(spec_source(s, pos).1 == seq![TreeModel::Leaf(t)] + inner);
                        assert(ts.skip(1 + k1 as int) =~= ts2.skip(k1 as int)) by {
                            assert(forall|j: int|
                                0 <= j < ts2.len() - k1 ==> ts.skip(1 + k1 as int)[j] == ts2.skip(
                                    k1 as int,
                                )[j]);
                        }
                        assert(spec_tokens(s, pos + spec_source(s, pos).0) == ts.skip(
                            build(ts, 0).0 as int,
                        ));
                    },
                }
            },
        }
    }
}


/// Leaf counting over children ignores a prepended first child.
pub proof fn lemma_leaves_from_shift(x: TreeModel, cs: Seq<TreeModel>, i: int)
    requires
        0 <= i,
    ensures
        leaves_from(seq![x] + cs, i + 1) == leaves_from(cs, i),
    decreases items_left(cs.len() as int, i),
{
    if 0 <= i < cs.len() {
        assert((seq![x] + cs)[i + 1] == cs[i]);
        lemma_leaves_from_shift(x, cs, i + 1);
    }
}

/// Depth over children ignores a prepended first child.
pub proof fn lemma_depth_from_shift(x: TreeModel, cs: Seq<TreeModel>, i: int)
    requires
        0 <= i,
    ensures
        depth_from(seq![x] + cs, i + 1) == depth_from(cs, i),
    decreases items_left(cs.len() as int, i),
{
    if 0 <= i < cs.len() {
        assert((seq![x] + cs)[i + 1] == cs[i]);
        lemma_depth_from_shift(x, cs, i + 1);
    }
}

/// Counting atoms over a range splits at any point within it.
pub proof fn lemma_atoms_split(ts: Seq<TokenModel>, i: int, m: int, j: int)
    requires
        i <= m <= j,
    ensures
        atoms_between(ts, i, j) == atoms_between(ts, i, m) + atoms_between(ts, m, j),
    decreases items_left(m, i),
{
    if i < m {
        lemma_atoms_split(ts, i + 1, m, j);
    }
}

/// The unit-level replay stays within the run, and every identifier or
/// number it consumes becomes exactly one leaf.
pub proof fn lemma_build_leaves(ts: Seq<TokenModel>, i: int)
    requires
        0 <= i <= ts.len(),
    ensures
        ({
            let (n, cs) = build(ts, i);
            &&& i + n <= ts.len()
            &&& leaves_from(cs, 0) == atoms_between(ts, i, i + n)
        }),
    decreases items_left(ts.len() as int, i),
{
    if 0 <= i < ts.len() {
        match ts[i] {
            TokenModel::LParen => {
                let (n1, inner) = build(ts, i + 1);
                let (n2, rest) = build(ts, i + 1 + n1);
                lemma_build_leaves(ts, i + 1);
                lemma_build_leaves(ts, i + 1 + n1);
                lemma_leaves_from_shift(TreeModel::Node(inner), rest, 0);
                lemma_atoms_split(ts, i + 1, i + 1 + n1, i + 1 + n1 + n2);
                assert(leaves_from(seq![TreeModel::Node(inner)] + rest, 0) == leaves(
                    TreeModel::Node(inner),
                ) + leaves_from(rest, 0));
            },
            TokenModel::RParen => {
                assert(build(ts, i).0 == 1);
                assert(build(ts, i).1 == Seq::<TreeModel>::empty());
                assert(leaves_from(Seq::<TreeModel>::empty(), 0) == 0);
                assert(atoms_between(ts, i + 1, i + 1) == 0);
                assert(atoms_between(ts, i, i + 1) == 0);
            },
            t => {
                let (n2, rest) = build(ts, i + 1);
                lemma_build_leaves(ts, i + 1);
                lemma_leaves_from_shift(TreeModel::Leaf(t), rest, 0);
                assert((seq![TreeModel::Leaf(t)] + rest)[0] == TreeModel::Leaf(t));
                assert(leaves(TreeModel::Leaf(t)) == 1);
                assert(leaves_from(seq![TreeModel::Leaf(t)] + rest, 0) == 1 + leaves_from(rest, 0));
            },
        }
    }
}

/// Under balance, the replay consumes the whole run when no group is open,
/// and otherwise consumes exactly through the close of the innermost open
/// group, leaving a run balanced one level higher up.
pub proof fn lemma_build_balanced(ts: Seq<TokenModel>, i: int, depth: int)
    requires
        0 <= i <= ts.len(),
        depth >= 0,
        balanced_from(ts, i, depth),
    ensures
        ({
            let n = build(ts, i).0;
            &&& i + n <= ts.len()
            &&& (depth == 0 ==> i + n == ts.len())
            &&& (depth >= 1 ==> balanced_from(ts, i + n, depth - 1))
        }),
    decreases items_left(ts.len() as int, i),
{
    lemma_build_leaves(ts, i);
    if 0 <= i < ts.len() {
        match ts[i] {
            TokenModel::LParen => {
                let (n1, inner) = build(ts, i + 1);
                lemma_build_balanced(ts, i + 1, depth + 1);
                lemma_build_balanced(ts, i + 1 + n1, depth);
            },
            TokenModel::RParen => {
            },
            t => {
                lemma_build_balanced(ts, i + 1, depth);
            },
        }
    }
}

/// Under balance, the tree the replay accumulates nests exactly as deep as
/// the parentheses of the run it consumes.
pub proof fn lemma_build_depth(ts: Seq<TokenModel>, i: int, depth: nat)
    requires
        0 <= i <= ts.len(),
        balanced_from(ts, i, depth as int),
    ensures
        ({
            let (n, cs) = build(ts, i);
            &&& (depth == 0 ==> max_nest_from(ts, i, 0) == depth_from(cs, 0))
            &&& (depth >= 1 ==> max_nest_from(ts, i, depth) == nat_max(
                (depth + depth_from(cs, 0)) as nat,
                max_nest_from(ts, i + n, (depth - 1) as nat),
            ))
        }),
    decreases items_left(ts.len() as int, i),
{
    lemma_build_leaves(ts, i);
    if 0 <= i < ts.len() {
        match ts[i] {
            TokenModel::LParen => {
                let (n1, inner) = build(ts, i + 1);
                let (n2, rest) = build(ts, i + 1 + n1);
                lemma_build_leaves(ts, i + 1);
                lemma_build_balanced(ts, i + 1, depth as int + 1);
                lemma_build_depth(ts, i + 1, (depth + 1) as nat);
                lemma_build_depth(ts, i + 1 + n1, depth);
                lemma_depth_from_shift(TreeModel::Node(inner), rest, 0);
                assert((seq![TreeModel::Node(inner)] + rest)[0] == TreeModel::Node(inner));
                assert(node_depth(TreeModel::Node(inner)) == 1 + depth_from(inner, 0));
                assert(depth_from(seq![TreeModel::Node(inner)] + rest, 0) == nat_max(
                    (1 + depth_from(inner, 0)) as nat,
                    depth_from(rest, 0),
                ));
            },
            TokenModel::RParen => {
            },
            t => {
                let (n2, rest) = build(ts, i + 1);
                lemma_build_depth(ts, i + 1, depth);
                lemma_depth_from_shift(TreeModel::Leaf(t), rest, 0);
                assert((seq![TreeModel::Leaf(t)] + rest)[0] == TreeModel::Leaf(t));
                assert(node_depth(TreeModel::Leaf(t)) == 0);
                assert(depth_from(seq![TreeModel::Leaf(t)] + rest, 0) == nat_max(
                    0,
                    depth_from(rest, 0),
                ));
            },
        }
    }
}


/// Spaces before a unit are inert: the lexer yields from anywhere within a
/// run of spaces exactly what it yields after them, so a longer or shorter
/// run between two units never changes what is lexed.
pub proof fn lemma_spaces_inert(s: Seq<char>, pos: int, k: int)
    requires
        0 <= k <= space_run(s, pos),
    ensures
        spec_token(s, pos + k) == spec_token(s, pos),
    decreases k,
{
    if k > 0 {
        lemma_spaces_inert(s, pos + 1, k - 1);
    }
}

/// The tree depends on the run of lexical units alone: two sources with the
/// same units, whatever spaces stand between them, parse to the same tree.
pub proof fn lemma_whitespace_never_changes_tree(s1: Seq<char>, s2: Seq<char>)
    requires
        spec_tokens(s1, 0) == spec_tokens(s2, 0),
    ensures
        spec_source(s1, 0).1 == spec_source(s2, 0).1,
{
    lemma_source_builds_tokens(s1, 0);
    lemma_source_builds_tokens(s2, 0);
}

/// On a source whose units balance, the tree holds exactly one leaf per
/// identifier or number unit, and it nests exactly as deep as the
/// parentheses of the source do.
pub proof fn lemma_balanced_source_shape(s: Seq<char>)
    requires
        balanced(spec_tokens(s, 0)),
    ensures
        leaves_from(spec_source(s, 0).1, 0) == atoms_between(
            spec_tokens(s, 0),
            0,
            spec_tokens(s, 0).len() as int,
        ),
        depth_from(spec_source(s, 0).1, 0) == max_nest(spec_tokens(s, 0)),
{
    let ts = spec_tokens(s, 0);
    lemma_source_builds_tokens(s, 0);
    lemma_build_leaves(ts, 0);
    lemma_build_balanced(ts, 0, 0);
    lemma_build_depth(ts, 0, 0);
}


/// Equal remainders stay equal one character further on, and agree on the
/// character at the cursor.
pub proof fn lemma_skip_step(s1: Seq<char>, p1: int, s2: Seq<char>, p2: int)
    requires
        0 <= p1 < s1.len(),
        0 <= p2 <= s2.len(),
        s1.skip(p1) == s2.skip(p2),
    ensures
        p2 < s2.len(),
        s1[p1] == s2[p2],
        s1.skip(p1 + 1) == s2.skip(p2 + 1),
{
    assert(s1.skip(p1).len() == s1.len() - p1);
    assert(s2.skip(p2).len() == s2.len() - p2);
    assert(s1.skip(p1)[0] == s1[p1]);
    assert(s2.skip(p2)[0] == s2[p2]);
    assert(s1.skip(p1 + 1) =~= s2.skip(p2 + 1)) by {
        assert forall|d: int| 0 <= d < s1.len() - p1 - 1 implies #[trigger] s1.skip(p1 + 1)[d]
            == s2.skip(p2 + 1)[d] by {
            assert(s1.skip(p1 + 1)[d] == s1[p1 + 1 + d]);
            assert(s1.skip(p1)[d + 1] == s1[p1 + 1 + d]);
            assert(s2.skip(p2 + 1)[d] == s2[p2 + 1 + d]);
            assert(s2.skip(p2)[d + 1] == s2[p2 + 1 + d]);
        }
    }
}

/// Equal remainders stay equal any number of characters further on.
pub proof fn lemma_skip_jump(s1: Seq<char>, p1: int, s2: Seq<char>, p2: int, k: int)
    requires
        0 <= p1,
        0 <= p2 <= s2.len(),
        0 <= k,
        p1 + k <= s1.len(),
        s1.skip(p1) == s2.skip(p2),
    ensures
        p2 + k <= s2.len(),
        s1.skip(p1 + k) == s2.skip(p2 + k),
    decreases k,
{
    assert(s1.skip(p1).len() == s1.len() - p1);
    assert(s2.skip(p2).len() == s2.len() - p2);
    if k > 0 {
        lemma_skip_step(s1, p1, s2, p2);
        lemma_skip_jump(s1, p1 + 1, s2, p2 + 1, k - 1);
    }
}

/// A run of spaces is the same wherever the same remainder stands.
pub proof fn lemma_space_run_translate(s1: Seq<char>, p1: int, s2: Seq<char>, p2: int)
    requires
        0 <= p1 <= s1.len(),
        0 <= p2 <= s2.len(),
        s1.skip(p1) == s2.skip(p2),
    ensures
        space_run(s1, p1) == space_run(s2, p2),
    decreases s1.len() - p1,
{
    assert(s1.skip(p1).len() == s1.len() - p1);
    assert(s2.skip(p2).len() == s2.len() - p2);
    if p1 < s1.len() {
        lemma_skip_step(s1, p1, s2, p2);
        if is_space(s1[p1]) {
            lemma_space_run_translate(s1, p1 + 1, s2, p2 + 1);
        }
    }
}

/// A run of identifier characters is the same wherever the same remainder
/// stands.
pub proof fn lemma_ident_run_translate(s1: Seq<char>, p1: int, s2: Seq<char>, p2: int)
    requires
        0 <= p1 <= s1.len(),
        0 <= p2 <= s2.len(),
        s1.skip(p1) == s2.skip(p2),
    ensures
        ident_run(s1, p1) == ident_run(s2, p2),
    decreases s1.len() - p1,
{
    assert(s1.skip(p1).len() == s1.len() - p1);
    assert(s2.skip(p2).len() == s2.len() - p2);
    if p1 < s1.len() {
        lemma_skip_step(s1, p1, s2, p2);
        if is_ident_char(s1[p1]) {
            lemma_ident_run_translate(s1, p1 + 1, s2, p2 + 1);
        }
    }
}

/// A run of number characters is the same wherever the same remainder
/// stands.
pub proof fn lemma_number_run_translate(s1: Seq<char>, p1: int, s2: Seq<char>, p2: int)
    requires
        0 <= p1 <= s1.len(),
        0 <= p2 <= s2.len(),
        s1.skip(p1) == s2.skip(p2),
    ensures
        number_run(s1, p1) == number_run(s2, p2),
    decreases s1.len() - p1,
{
    assert(s1.skip(p1).len() == s1.len() - p1);
    assert(s2.skip(p2).len() == s2.len() - p2);
    if p1 < s1.len() {
        lemma_skip_step(s1, p1, s2, p2);
        if is_number_char(s1[p1]) {
            lemma_number_run_translate(s1, p1 + 1, s2, p2 + 1);
        }
    }
}

/// One lexer step sees only the remainder: at two cursors with the same
/// remainder it advances alike and yields the same unit.
pub proof fn lemma_spec_token_translate(s1: Seq<char>, p1: int, s2: Seq<char>, p2: int)
    requires
        0 <= p1 <= s1.len(),
        0 <= p2 <= s2.len(),
        s1.skip(p1) == s2.skip(p2),
    ensures
        spec_token(s1, p1).0 - p1 == spec_token(s2, p2).0 - p2,
        spec_token(s1, p1).1 == spec_token(s2, p2).1,
{
    assert(s1.skip(p1).len() == s1.len() - p1);
    assert(s2.skip(p2).len() == s2.len() - p2);
    lemma_space_run_translate(s1, p1, s2, p2);
    lemma_space_run_in_bounds(s1, p1);
    let k = space_run(s1, p1) as int;
    lemma_skip_jump(s1, p1, s2, p2, k);
    let q1 = p1 + k;
    let q2 = p2 + k;
    if q1 < s1.len() {
        lemma_skip_step(s1, q1, s2, q2);
        lemma_ident_run_translate(s1, q1 + 1, s2, q2 + 1);
        lemma_number_run_translate(s1, q1 + 1, s2, q2 + 1);
        lemma_ident_run_in_bounds(s1, q1 + 1);
        lemma_number_run_in_bounds(s1, q1 + 1);
        if is_alpha(s1[q1]) {
            let e1 = ident_end(s1, q1);
            let e2 = ident_end(s2, q2);
            assert(s1.subrange(q1, e1) =~= s2.subrange(q2, e2)) by {
                assert forall|v: int| 0 <= v < e1 - q1 implies s1.subrange(q1, e1)[v]
                    == s2.subrange(q2, e2)[v] by {
                    assert(s1.skip(q1)[v] == s1[q1 + v]);
                    assert(s2.skip(q2)[v] == s2[q2 + v]);
                }
            }
        }
        if is_number_start(s1[q1]) {
            let f1 = number_end(s1, q1);
            let f2 = number_end(s2, q2);
            assert(s1.subrange(q1, f1) =~= s2.subrange(q2, f2)) by {
                assert forall|v: int| 0 <= v < f1 - q1 implies s1.subrange(q1, f1)[v]
                    == s2.subrange(q2, f2)[v] by {
                    assert(s1.skip(q1)[v] == s1[q1 + v]);
                    assert(s2.skip(q2)[v] == s2[q2 + v]);
                }
            }
        }
    }
}

/// The whole run of units seen from a cursor depends only on the remainder
/// of the input from that cursor on.
pub proof fn lemma_spec_tokens_translate(s1: Seq<char>, p1: int, s2: Seq<char>, p2: int)
    requires
        0 <= p1 <= s1.len(),
        0 <= p2 <= s2.len(),
        s1.skip(p1) == s2.skip(p2),
    ensures
        spec_tokens(s1, p1) == spec_tokens(s2, p2),
    decreases s1.len() - p1,
{
    assert(s1.skip(p1).len() == s1.len() - p1);
    assert(s2.skip(p2).len() == s2.len() - p2);
    lemma_spec_token_translate(s1, p1, s2, p2);
    lemma_spec_token_bounds(s1, p1);
    lemma_spec_token_bounds(s2, p2);
    if p1 < s1.len() {
        let (tp1, tok) = spec_token(s1, p1);
        let tp2 = spec_token(s2, p2).0;
        if tok is Some {
            lemma_skip_jump(s1, p1, s2, p2, tp1 - p1);
            lemma_spec_tokens_translate(s1, tp1, s2, tp2);
        }
    }
}


/// The exact text one unit stands for in the source.
pub open spec fn unit_text(t: TokenModel) -> Seq<char> {
    match t {
        TokenModel::Ident(x) => x,
        TokenModel::Number(x) => x,
        TokenModel::LParen => seq!['('],
        TokenModel::RParen => seq![')'],
    }
}

/// A unit the lexer could have produced: its text has exactly its
/// category's shape.
pub open spec fn wf_unit(t: TokenModel) -> bool {
    match t {
        TokenModel::Ident(x) => x.len() >= 1 && is_alpha(x[0]) && (forall|j: int|
            1 <= j < x.len() ==> is_ident_char(#[trigger] x[j])),
        TokenModel::Number(x) => x.len() >= 1 && is_number_start(x[0]) && (forall|j: int|
            1 <= j < x.len() ==> is_number_char(#[trigger] x[j])) && is_float_literal(x),
        TokenModel::LParen => true,
        TokenModel::RParen => true,
    }
}

/// A run of `k` spaces.
pub open spec fn spaces(k: nat) -> Seq<char> {
    Seq::new(k, |i: int| ' ')
}

/// Gap widths for laying a run of units out as text: one gap before each
/// unit and one after the last. Two adjacent identifiers or numbers must be
/// parted by at least one space, or their texts would run together.
pub open spec fn wf_gaps(ts: Seq<TokenModel>, g: Seq<nat>) -> bool {
    &&& g.len() == ts.len() + 1
    &&& forall|j: int| 1 <= j < ts.len() && is_atom(ts[j - 1]) && is_atom(#[trigger] ts[j])
        ==> g[j] >= 1
}

/// The source text laid out from unit `i` on: a gap, the unit, the rest.
pub open spec fn render_from(ts: Seq<TokenModel>, g: Seq<nat>, i: int) -> Seq<char>
    decreases items_left(ts.len() as int, i),
{
    if 0 <= i < ts.len() {
        spaces(g[i]) + unit_text(ts[i]) + render_from(ts, g, i + 1)
    } else {
        spaces(g[ts.len() as int])
    }
}

/// A whole source text laid out from a run of units and gap widths.
pub open spec fn render(ts: Seq<TokenModel>, g: Seq<nat>) -> Seq<char> {
    render_from(ts, g, 0)
}

/// A space run scans exactly a prefix of spaces up to a non-space.
pub proof fn lemma_space_run_of_layout(xs: Seq<char>, tail: Seq<char>)
    requires
        forall|u: int| 0 <= u < xs.len() ==> is_space(#[trigger] xs[u]),
        tail.len() == 0 || !is_space(tail[0]),
    ensures
        space_run(xs + tail, 0) == xs.len(),
    decreases xs.len(),
{
    let s = xs + tail;
    if xs.len() > 0 {
        assert(s[0] == xs[0]);
        let xs2 = xs.skip(1);
        assert(forall|u: int| 0 <= u < xs2.len() ==> is_space(#[trigger] xs2[u])) by {
            assert(forall|u: int| 0 <= u < xs2.len() ==> xs2[u] == xs[u + 1]);
        }
        lemma_space_run_of_layout(xs2, tail);
        assert(s.skip(1) =~= xs2 + tail) by {
            assert forall|d: int| 0 <= d < s.len() - 1 implies #[trigger] s.skip(1)[d] == (xs2
                + tail)[d] by {
                assert(s.skip(1)[d] == s[1 + d]);
            }
        }
        assert((xs2 + tail).skip(0) =~= xs2 + tail);
        lemma_space_run_translate(s, 1, xs2 + tail, 0);
    } else {
        assert(s =~= tail);
    }
}

/// An identifier-character run scans exactly a prefix of such characters.
pub proof fn lemma_ident_run_of_layout(xs: Seq<char>, tail: Seq<char>)
    requires
        forall|u: int| 0 <= u < xs.len() ==> is_ident_char(#[trigger] xs[u]),
        tail.len() == 0 || !is_ident_char(tail[0]),
    ensures
        ident_run(xs + tail, 0) == xs.len(),
    decreases xs.len(),
{
    let s = xs + tail;
    if xs.len() > 0 {
        assert(s[0] == xs[0]);
        let xs2 = xs.skip(1);
        assert(forall|u: int| 0 <= u < xs2.len() ==> is_ident_char(#[trigger] xs2[u])) by {
            assert(forall|u: int| 0 <= u < xs2.len() ==> xs2[u] == xs[u + 1]);
        }
        lemma_ident_run_of_layout(xs2, tail);
        assert(s.skip(1) =~= xs2 + tail) by {
            assert forall|d: int| 0 <= d < s.len() - 1 implies #[trigger] s.skip(1)[d] == (xs2
                + tail)[d] by {
                assert(s.skip(1)[d] == s[1 + d]);
            }
        }
        assert((xs2 + tail).skip(0) =~= xs2 + tail);
        lemma_ident_run_translate(s, 1, xs2 + tail, 0);
    } else {
        assert(s =~= tail);
    }
}

/// A number-character run scans exactly a prefix of such characters.
pub proof fn lemma_number_run_of_layout(xs: Seq<char>, tail: Seq<char>)
    requires
        forall|u: int| 0 <= u < xs.len() ==> is_number_char(#[trigger] xs[u]),
        tail.len() == 0 || !is_number_char(tail[0]),
    ensures
        number_run(xs + tail, 0) == xs.len(),
    decreases xs.len(),
{
    let s = xs + tail;
    if xs.len() > 0 {
        assert(s[0] == xs[0]);
        let xs2 = xs.skip(1);
        assert(forall|u: int| 0 <= u < xs2.len() ==> is_number_char(#[trigger] xs2[u])) by {
            assert(forall|u: int| 0 <= u < xs2.len() ==> xs2[u] == xs[u + 1]);
        }
        lemma_number_run_of_layout(xs2, tail);
        assert(s.skip(1) =~= xs2 + tail) by {
            assert forall|d: int| 0 <= d < s.len() - 1 implies #[trigger] s.skip(1)[d] == (xs2
                + tail)[d] by {
                assert(s.skip(1)[d] == s[1 + d]);
            }
        }
        assert((xs2 + tail).skip(0) =~= xs2 + tail);
        lemma_number_run_translate(s, 1, xs2 + tail, 0);
    } else {
        assert(s =~= tail);
    }
}


/// After an identifier or a number, the laid-out text goes on with a space,
/// a parenthesis or nothing, so the unit's scan stops exactly at its end.
pub proof fn lemma_render_boundary(ts: Seq<TokenModel>, g: Seq<nat>, i: int)
    requires
        wf_gaps(ts, g),
        forall|j: int| 0 <= j < ts.len() ==> wf_unit(#[trigger] ts[j]),
        0 <= i < ts.len(),
        is_atom(ts[i]),
    ensures
        ({
            let rn = render_from(ts, g, i + 1);
            rn.len() == 0 || (!is_ident_char(rn[0]) && !is_number_char(rn[0]))
        }),
{
    let rn = render_from(ts, g, i + 1);
    if i + 1 < ts.len() {
        let k = g[i + 1];
        if k > 0 {
            assert(rn[0] == spaces(k)[0]);
        } else {
            assert(rn.len() > 0 ==> rn[0] == unit_text(ts[i + 1])[0]) by {
                assert(unit_text(ts[i + 1]).len() >= 1);
                assert(rn[0] == (spaces(k) + unit_text(ts[i + 1]))[0]);
            }
            assert(!is_atom(ts[i + 1]));
        }
    } else {
        let k = g[ts.len() as int];
        if k > 0 {
            assert(rn[0] == spaces(k)[0]);
        }
    }
}

/// From the start of a gap, the lexer consumes the gap and captures exactly
/// the unit after it, leaving the rest of the laid-out text.
pub proof fn lemma_render_step(ts: Seq<TokenModel>, g: Seq<nat>, i: int)
    requires
        wf_gaps(ts, g),
        forall|j: int| 0 <= j < ts.len() ==> wf_unit(#[trigger] ts[j]),
        0 <= i < ts.len(),
    ensures
        ({
            let r = render_from(ts, g, i);
            let e = g[i] + unit_text(ts[i]).len();
            &&& e <= r.len()
            &&& spec_token(r, 0) == (e as int, Some(ts[i]))
            &&& r.skip(e as int) == render_from(ts, g, i + 1)
        }),
{
    let r = render_from(ts, g, i);
    let gp = g[i] as int;
    let x = unit_text(ts[i]);
    let rn = render_from(ts, g, i + 1);
    assert(r == spaces(g[i]) + x + rn);
    assert(x.len() >= 1);
    let e = gp + x.len() as int;
    assert(r.len() == gp + x.len() + rn.len());
    // the spaces of the gap are all the spaces there are before the unit
    assert(r =~= spaces(g[i]) + (x + rn));
    assert((x + rn)[0] == x[0]);
    assert(!is_space(x[0]));
    lemma_space_run_of_layout(spaces(g[i]), x + rn);
    assert(space_run(r, 0) == gp);
    // the characters of the unit stand right after the gap
    assert forall|v: int| 0 <= v < x.len() implies r[gp + v] == x[v] by {
        assert(r[gp + v] == (spaces(g[i]) + x)[gp + v]);
    }
    // and the rest of the text right after the unit
    assert(r.skip(e) =~= rn) by {
        assert forall|d: int| 0 <= d < rn.len() implies #[trigger] r.skip(e)[d] == rn[d] by {
            assert(r.skip(e)[d] == r[e + d]);
        }
    }
    // the scan after the unit's first character covers the unit and no more
    let w = r.skip(gp + 1);
    assert(w =~= x.skip(1) + rn) by {
        assert forall|d: int| 0 <= d < r.len() - gp - 1 implies #[trigger] w[d] == (x.skip(1)
            + rn)[d] by {
            assert(w[d] == r[gp + 1 + d]);
            if d < x.len() - 1 {
                assert((x.skip(1) + rn)[d] == x[1 + d]);
                assert(r[gp + (1 + d)] == x[1 + d]);
            } else {
                assert(r.skip(e)[d - (x.len() - 1)] == r[e + d - (x.len() - 1)]);
            }
        }
    }
    assert(w.skip(0) =~= w);
    match ts[i] {
        TokenModel::Ident(x0) => {
            lemma_render_boundary(ts, g, i);
            lemma_ident_run_of_layout(x.skip(1), rn);
            lemma_ident_run_translate(r, gp + 1, w, 0);
            assert(ident_run(r, gp + 1) == x.len() - 1);
            assert(ident_end(r, gp) == e);
            assert(r.subrange(gp, e) =~= x) by {
                assert(forall|v: int| 0 <= v < x.len() ==> r.subrange(gp, e)[v] == r[gp + v]);
            }
        },
        TokenModel::Number(x0) => {
            lemma_render_boundary(ts, g, i);
            assert(!is_alpha(x[0]));
            lemma_number_run_of_layout(x.skip(1), rn);
            lemma_number_run_translate(r, gp + 1, w, 0);
            assert(number_run(r, gp + 1) == x.len() - 1);
            assert(number_end(r, gp) == e);
            assert(r.subrange(gp, e) =~= x) by {
                assert(forall|v: int| 0 <= v < x.len() ==> r.subrange(gp, e)[v] == r[gp + v]);
            }
            assert(is_float_literal(r.subrange(gp, e)));
        },
        TokenModel::LParen => {
            assert(r[gp + 0] == '(');
            assert(!is_alpha(r[gp]) && !is_number_start(r[gp]));
        },
        TokenModel::RParen => {
            assert(r[gp + 0] == ')');
            assert(!is_alpha(r[gp]) && !is_number_start(r[gp]) && r[gp] != '(');
        },
    }
}


/// The text laid out from unit `i` on lexes back to exactly those units.
pub proof fn lemma_render_from_lexes(ts: Seq<TokenModel>, g: Seq<nat>, i: int)
    requires
        wf_gaps(ts, g),
        forall|j: int| 0 <= j < ts.len() ==> wf_unit(#[trigger] ts[j]),
        0 <= i <= ts.len(),
    ensures
        spec_tokens(render_from(ts, g, i), 0) == ts.skip(i),
    decreases items_left(ts.len() as int, i),
{
    let r = render_from(ts, g, i);
    if i == ts.len() {
        let k = g[ts.len() as int];
        assert(r == spaces(k));
        assert(r + Seq::<char>::empty() =~= r);
        assert(Seq::<char>::empty().len() == 0);
        lemma_space_run_of_layout(r, Seq::<char>::empty());
        assert(space_run(r, 0) == r.len());
        assert(spec_token(r, 0).1 is None);
        assert(spec_tokens(r, 0) =~= Seq::<TokenModel>::empty());
        assert(ts.skip(i) =~= Seq::<TokenModel>::empty());
    } else {
        lemma_render_step(ts, g, i);
        let e = (g[i] + unit_text(ts[i]).len()) as int;
        let rn = render_from(ts, g, i + 1);
        lemma_render_from_lexes(ts, g, i + 1);
        assert(rn.skip(0) =~= rn);
        lemma_spec_tokens_translate(r, e, rn, 0);
        assert(spec_tokens(r, 0) == seq![ts[i]] + spec_tokens(r, e));
        assert(seq![ts[i]] + ts.skip(i + 1) =~= ts.skip(i));
    }
}

/// A source laid out from well-formed units, with whatever gap widths,
/// lexes back to exactly those units.
pub proof fn lemma_render_lexes_to_units(ts: Seq<TokenModel>, g: Seq<nat>)
    requires
        wf_gaps(ts, g),
        forall|j: int| 0 <= j < ts.len() ==> wf_unit(#[trigger] ts[j]),
    ensures
        spec_tokens(render(ts, g), 0) == ts,
{
    lemma_render_from_lexes(ts, g, 0);
    assert(ts.skip(0) =~= ts);
}

/// Inserting or removing runs of spaces between units never changes the
/// resulting tree: any two space layouts of the same units parse alike.
pub proof fn lemma_space_layout_never_changes_tree(
    ts: Seq<TokenModel>,
    g1: Seq<nat>,
    g2: Seq<nat>,
)
    requires
        wf_gaps(ts, g1),
        wf_gaps(ts, g2),
        forall|j: int| 0 <= j < ts.len() ==> wf_unit(#[trigger] ts[j]),
    ensures
        spec_source(render(ts, g1), 0).1 == spec_source(render(ts, g2), 0).1,
{
    lemma_render_lexes_to_units(ts, g1);
    lemma_render_lexes_to_units(ts, g2);
    lemma_whitespace_never_changes_tree(render(ts, g1), render(ts, g2));
}

} // verus!
