//! String helpers, the branch matcher and the tree renderer.

use vstd::prelude::*;

use crate::model::Branch;
use crate::model::BranchView;
use crate::model::views_of;

verus! {

/// Character-wise string equality, stated over the views.
pub fn str_eq(a: &str, b: &str) -> (r: bool)
    ensures
        r == (a@ == b@),
{
    let alen = a.unicode_len();
    let blen = b.unicode_len();
    if alen != blen {
        return false;
    }
    for i in 0..alen
        invariant
            alen == a@.len(),
            blen == b@.len(),
            alen == blen,
            forall|j: int| 0 <= j < i ==> a@[j] == b@[j],
    {
        if a.get_char(i) != b.get_char(i) {
            return false;
        }
    }
    proof {
        assert(a@ =~= b@);
    }
    true
}

/// The branch a command targets: the explicitly named one if any,
/// else the VCS's current branch.
pub fn get_target_branch(branch_name: Option<&str>, current_branch_name: &str) -> (r: String)
    ensures
        r@ == match branch_name {
            Some(n) => n@,
            None => current_branch_name@,
        },
{
    match branch_name {
        Some(n) => n.to_owned(),
        None => current_branch_name.to_owned(),
    }
}

/// Whether `name` occurs in the list `l`.
pub fn name_in_list(l: &Vec<String>, name: &str) -> (r: bool)
    ensures
        r == l.deep_view().contains(name@),
{
    let n = l.len();
    for i in 0..n
        invariant
            n == l@.len(),
            forall|j: int| 0 <= j < i ==> l.deep_view()[j] != name@,
    {
        if str_eq(l[i].as_str(), name) {
            proof {
                assert(l.deep_view()[i as int] == name@);
            }
            return true;
        }
    }
    proof {
        assert(!l.deep_view().contains(name@));
    }
    false
}

/// `needle` occurs somewhere in `hay` as a contiguous run.
pub open spec fn contains_sub(hay: Seq<char>, needle: Seq<char>) -> bool {
    exists|i: int|
        0 <= i && i + needle.len() <= hay.len() && #[trigger] hay.subrange(i, i + needle.len())
            == needle
}

/// Whether `needle` matches `hay` exactly at position `i`.
fn match_at(hay: &str, needle: &str, i: usize) -> (r: bool)
    requires
        i + needle@.len() <= hay@.len(),
    ensures
        r == (hay@.subrange(i as int, i as int + needle@.len() as int) == needle@),
{
    let hlen = hay.unicode_len();
    let nlen = needle.unicode_len();
    for j in 0..nlen
        invariant
            hlen == hay@.len(),
            nlen == needle@.len(),
            i + nlen <= hay@.len(),
            forall|y: int| 0 <= y < j ==> hay@[i + y] == needle@[y],
    {
        if hay.get_char(i + j) != needle.get_char(j) {
            proof {
                assert(hay@.subrange(i as int, i as int + needle@.len() as int)[j as int] == hay@[i
                    + j]);
            }
            return false;
        }
    }
    proof {
        assert(hay@.subrange(i as int, i as int + needle@.len() as int) =~= needle@);
    }
    true
}

/// Case-sensitive, unanchored substring test, stated over the views.
pub fn str_contains(hay: &str, needle: &str) -> (r: bool)
    ensures
        r == contains_sub(hay@, needle@),
{
    let hlen = hay.unicode_len();
    let nlen = needle.unicode_len();
    if nlen == 0 {
        proof {
            assert(hay@.subrange(0, 0 + needle@.len() as int) =~= needle@);
        }
        return true;
    }
    if nlen > hlen {
        return false;
    }
    let end = hlen - nlen;
    for i in 0..end + 1
        invariant
            hlen == hay@.len(),
            nlen == needle@.len(),
            0 < nlen <= hlen,
            end == hlen - nlen,
            forall|x: int|
                0 <= x < i ==> #[trigger] hay@.subrange(x, x + needle@.len() as int) != needle@,
    {
        if match_at(hay, needle, i) {
            return true;
        }
    }
    false
}

/// Whether `name` contains every one of the filters `ms`.
pub open spec fn matches_all(name: Seq<char>, ms: Seq<Seq<char>>) -> bool {
    forall|k: int| 0 <= k < ms.len() ==> contains_sub(name, #[trigger] ms[k])
}

/// The branch names among `names` that contain every filter in `ms`,
/// in their original order.
pub open spec fn matched_spec(names: Seq<Seq<char>>, ms: Seq<Seq<char>>) -> Seq<Seq<char>>
    decreases names.len(),
{
    if names.len() == 0 {
        Seq::empty()
    } else {
        let rest = matched_spec(names.drop_last(), ms);
        if matches_all(names.last(), ms) {
            rest.push(names.last())
        } else {
            rest
        }
    }
}

/// Whether `name` contains every filter in `ms`.
fn matches_all_exec(name: &str, ms: &Vec<String>) -> (r: bool)
    ensures
        r == matches_all(name@, ms.deep_view()),
{
    let n = ms.len();
    for k in 0..n
        invariant
            n == ms@.len(),
            forall|x: int| 0 <= x < k ==> contains_sub(name@, #[trigger] ms.deep_view()[x]),
    {
        if !str_contains(name, ms[k].as_str()) {
            proof {
                assert(ms.deep_view()[k as int] == ms@[k as int]@);
            }
            return false;
        }
    }
    true
}

/// All VCS branches whose name contains every filter, conjunctively
/// and case-sensitively, in the VCS's order.
pub fn match_branches(git_branches: &Vec<crate::git_util::GitBranch>, branch_matchers: &Vec<
    String,
>) -> (r: Vec<String>)
    ensures
        r.deep_view() == matched_spec(git_branches.deep_view(), branch_matchers.deep_view()),
{
    let ghost names = git_branches.deep_view();
    let mut out: Vec<String> = Vec::new();
    let n = git_branches.len();
    for i in 0..n
        invariant
            n == git_branches@.len(),
            names == git_branches.deep_view(),
            out.deep_view() == matched_spec(names.take(i as int), branch_matchers.deep_view()),
    {
        let ghost pre = names.take(i as int);
        let ghost cur = names.take(i + 1);
        proof {
            assert(cur.drop_last() =~= pre);
            assert(cur.last() == names[i as int]);
        }
        if matches_all_exec(git_branches[i].ref_name.as_str(), branch_matchers) {
            out.push(git_branches[i].ref_name.clone());
            proof {
                assert(out.deep_view() =~= matched_spec(pre, branch_matchers.deep_view()).push(
                    names[i as int],
                ));
            }
        }
    }
    proof {
        assert(names.take(n as int) =~= names);
    }
    out
}

/// Character-wise lexicographic order on names.
pub open spec fn lex_le(a: Seq<char>, b: Seq<char>) -> bool
    decreases a.len(),
{
    if a.len() == 0 {
        true
    } else if b.len() == 0 {
        false
    } else if a[0] == b[0] {
        lex_le(a.drop_first(), b.drop_first())
    } else {
        (a[0] as u32) < (b[0] as u32)
    }
}

/// Decide `lex_le` on two names.
pub fn name_le(a: &str, b: &str) -> (r: bool)
    ensures
        r == lex_le(a@, b@),
{
    let alen = a.unicode_len();
    let blen = b.unicode_len();
    let m = if alen < blen {
        alen
    } else {
        blen
    };
    proof {
        assert(a@.skip(0) =~= a@);
        assert(b@.skip(0) =~= b@);
    }
    for i in 0..m
        invariant
            alen == a@.len(),
            blen == b@.len(),
            m == if alen < blen {
                alen
            } else {
                blen
            },
            lex_le(a@, b@) == lex_le(a@.skip(i as int), b@.skip(i as int)),
    {
        let ca = a.get_char(i);
        let cb = b.get_char(i);
        proof {
            let sa = a@.skip(i as int);
            let sb = b@.skip(i as int);
            assert(sa[0] == a@[i as int]);
            assert(sb[0] == b@[i as int]);
            assert(sa.drop_first() =~= a@.skip(i + 1));
            assert(sb.drop_first() =~= b@.skip(i + 1));
        }
        if ca != cb {
            return (ca as u32) < (cb as u32);
        }
    }
    proof {
        let sa = a@.skip(m as int);
        let sb = b@.skip(m as int);
        if alen <= blen {
            assert(sa.len() == 0);
        } else {
            assert(sb.len() == 0 && sa.len() > 0);
        }
    }
    alen <= blen
}

/// `l` with `x` inserted in front of its first entry not below `x`.
pub open spec fn insert_sorted(x: Seq<char>, l: Seq<Seq<char>>) -> Seq<Seq<char>>
    decreases l.len(),
{
    if l.len() == 0 {
        seq![x]
    } else if lex_le(x, l[0]) {
        seq![x] + l
    } else {
        seq![l[0]] + insert_sorted(x, l.drop_first())
    }
}

/// `l` insertion-sorted under `lex_le`, stable for equal names.
pub open spec fn sort_names_spec(l: Seq<Seq<char>>) -> Seq<Seq<char>>
    decreases l.len(),
{
    if l.len() == 0 {
        l
    } else {
        insert_sorted(l.last(), sort_names_spec(l.drop_last()))
    }
}

/// Splicing `x` at the first position whose entry is not below it is
/// exactly `insert_sorted`.
proof fn lemma_insert_sorted_at(l: Seq<Seq<char>>, x: Seq<char>, idx: int)
    requires
        0 <= idx <= l.len(),
        forall|k: int| 0 <= k < idx ==> !lex_le(x, #[trigger] l[k]),
        idx < l.len() ==> lex_le(x, l[idx]),
    ensures
        insert_sorted(x, l) == l.subrange(0, idx) + seq![x] + l.subrange(idx, l.len() as int),
    decreases l.len(),
{
    if idx == 0 {
        if l.len() == 0 {
            assert(insert_sorted(x, l) =~= l.subrange(0, 0) + seq![x] + l.subrange(0, 0));
        } else {
            assert(insert_sorted(x, l) =~= l.subrange(0, 0) + seq![x] + l.subrange(
                0,
                l.len() as int,
            ));
        }
    } else {
        assert(!lex_le(x, l[0]));
        let rest = l.drop_first();
        assert(forall|k: int| 0 <= k < idx - 1 ==> !lex_le(x, #[trigger] rest[k]));
        lemma_insert_sorted_at(rest, x, idx - 1);
        assert(insert_sorted(x, l) == seq![l[0]] + insert_sorted(x, rest));
        assert(seq![l[0]] + (rest.subrange(0, idx - 1) + seq![x] + rest.subrange(
            idx - 1,
            rest.len() as int,
        )) =~= l.subrange(0, idx) + seq![x] + l.subrange(idx, l.len() as int));
    }
}

/// Insert `x` into the sorted list `v`, keeping it sorted.
fn insert_one(v: &mut Vec<String>, x: String)
    ensures
        final(v).deep_view() == insert_sorted(x@, old(v).deep_view()),
{
    let n = v.len();
    let ghost l = v.deep_view();
    let mut idx: usize = 0;
    while idx < n && !name_le(x.as_str(), v[idx].as_str())
        invariant
            n == v@.len(),
            l == v.deep_view(),
            0 <= idx <= n,
            forall|k: int| 0 <= k < idx ==> !lex_le(x@, #[trigger] l[k]),
        decreases n - idx,
    {
        idx += 1;
    }
    proof {
        lemma_insert_sorted_at(l, x@, idx as int);
    }
    v.insert(idx, x);
    proof {
        assert(v.deep_view() =~= l.subrange(0, idx as int) + seq![x@] + l.subrange(
            idx as int,
            l.len() as int,
        ));
    }
}

/// The names of the branches whose parent is `p`, in forest order.
pub open spec fn children_names(s: Seq<BranchView>, p: Seq<char>) -> Seq<Seq<char>>
    decreases s.len(),
{
    if s.len() == 0 {
        Seq::empty()
    } else {
        let rest = children_names(s.drop_last(), p);
        if s.last().parent == Some(p) {
            rest.push(s.last().name)
        } else {
            rest
        }
    }
}

/// The names of the branches with no parent, in forest order.
pub open spec fn root_names(s: Seq<BranchView>) -> Seq<Seq<char>>
    decreases s.len(),
{
    if s.len() == 0 {
        Seq::empty()
    } else {
        let rest = root_names(s.drop_last());
        if s.last().parent is None {
            rest.push(s.last().name)
        } else {
            rest
        }
    }
}

/// The children of `p`, lexicographically sorted.
fn sorted_children(branches: &Vec<Branch>, p: &str) -> (r: Vec<String>)
    ensures
        r.deep_view() == sort_names_spec(children_names(views_of(branches@), p@)),
{
    let ghost s = views_of(branches@);
    let mut col: Vec<String> = Vec::new();
    let n = branches.len();
    for i in 0..n
        invariant
            n == branches@.len(),
            s == views_of(branches@),
            col.deep_view() == children_names(s.take(i as int), p@),
    {
        let ghost pre = s.take(i as int);
        let ghost cur = s.take(i + 1);
        proof {
            assert(cur.drop_last() =~= pre);
            assert(cur.last() == s[i as int]);
        }
        let hit = match &branches[i].parent {
            Some(q) => str_eq(q.as_str(), p),
            None => false,
        };
        if hit {
            col.push(branches[i].name.clone());
            proof {
                assert(col.deep_view() =~= children_names(pre, p@).push(s[i as int].name));
            }
        }
    }
    proof {
        assert(s.take(n as int) =~= s);
    }
    sort_list(col)
}

/// The roots of the forest, lexicographically sorted.
fn sorted_roots(branches: &Vec<Branch>) -> (r: Vec<String>)
    ensures
        r.deep_view() == sort_names_spec(root_names(views_of(branches@))),
{
    let ghost s = views_of(branches@);
    let mut col: Vec<String> = Vec::new();
    let n = branches.len();
    for i in 0..n
        invariant
            n == branches@.len(),
            s == views_of(branches@),
            col.deep_view() == root_names(s.take(i as int)),
    {
        let ghost pre = s.take(i as int);
        let ghost cur = s.take(i + 1);
        proof {
            assert(cur.drop_last() =~= pre);
            assert(cur.last() == s[i as int]);
        }
        if branches[i].parent.is_none() {
            col.push(branches[i].name.clone());
            proof {
                assert(col.deep_view() =~= root_names(pre).push(s[i as int].name));
            }
        }
    }
    proof {
        assert(s.take(n as int) =~= s);
    }
    sort_list(col)
}

/// Insertion-sort a list of names.
fn sort_list(col: Vec<String>) -> (r: Vec<String>)
    ensures
        r.deep_view() == sort_names_spec(col.deep_view()),
{
    let mut out: Vec<String> = Vec::new();
    let n = col.len();
    for i in 0..n
        invariant
            n == col@.len(),
            out.deep_view() == sort_names_spec(col.deep_view().take(i as int)),
    {
        let ghost pre = col.deep_view().take(i as int);
        let ghost cur = col.deep_view().take(i + 1);
        proof {
            assert(cur.drop_last() =~= pre);
            assert(cur.last() == col.deep_view()[i as int]);
        }
        insert_one(&mut out, col[i].clone());
    }
    proof {
        assert(col.deep_view().take(n as int) =~= col.deep_view());
    }
    out
}

/// One indentation segment: blank under a last child, a vertical
/// continuation under one with later siblings.
pub open spec fn seg(last: bool) -> Seq<char> {
    if last {
        "   "@
    } else {
        "│  "@
    }
}

/// The indentation accumulated from the ancestors on the path.
pub open spec fn prefix_of(stack: Seq<bool>) -> Seq<char>
    decreases stack.len(),
{
    if stack.len() == 0 {
        Seq::empty()
    } else {
        prefix_of(stack.drop_last()) + seg(stack.last())
    }
}

/// The connector drawn before a node: none for a root, a terminal
/// elbow for a last child, a tee otherwise.
pub open spec fn edge_seq(edge: Option<bool>) -> Seq<char> {
    match edge {
        None => Seq::empty(),
        Some(true) => "└─ "@,
        Some(false) => "├─ "@,
    }
}

/// The current-branch annotation, on that branch's line only.
pub open spec fn marker_seq(name: Seq<char>, current: Seq<char>) -> Seq<char> {
    if name == current {
        " ← you are here"@
    } else {
        Seq::empty()
    }
}

/// One rendered node line.
pub open spec fn node_line(
    stack: Seq<bool>,
    edge: Option<bool>,
    name: Seq<char>,
    current: Seq<char>,
) -> Seq<char> {
    prefix_of(stack) + edge_seq(edge) + name + marker_seq(name, current)
}

/// The line printed when the walk meets a node already on its path.
pub open spec fn cycle_line(stack: Seq<bool>) -> Seq<char> {
    prefix_of(stack) + "(cycle detected)"@
}

/// The lines for the subtree below `node`: a cycle marker if `node`
/// is already on the path, nothing once `fuel` is spent, else its
/// children in sorted order, each followed by its own subtree.
/// Callers pass `fuel` no smaller than the number of branches, which
/// the path-based cycle guard keeps the recursion within.
pub open spec fn render_subtree_spec(
    s: Seq<BranchView>,
    node: Seq<char>,
    visiting: Seq<Seq<char>>,
    stack: Seq<bool>,
    current: Seq<char>,
    fuel: nat,
) -> Seq<Seq<char>>
    decreases fuel, 1int, 0int,
{
    if visiting.contains(node) {
        seq![cycle_line(stack)]
    } else if fuel == 0 {
        Seq::empty()
    } else {
        render_children_spec(
            s,
            sort_names_spec(children_names(s, node)),
            visiting.push(node),
            stack,
            current,
            fuel,
        )
    }
}

/// The lines for the sibling group `kids`, left to right.
pub open spec fn render_children_spec(
    s: Seq<BranchView>,
    kids: Seq<Seq<char>>,
    visiting: Seq<Seq<char>>,
    stack: Seq<bool>,
    current: Seq<char>,
    fuel: nat,
) -> Seq<Seq<char>>
    decreases fuel, 0int, kids.len(),
{
    if kids.len() == 0 || fuel == 0 {
        Seq::empty()
    } else {
        let c = kids[0];
        let last = kids.len() == 1;
        seq![node_line(stack, Some(last), c, current)] + render_subtree_spec(
            s,
            c,
            visiting,
            stack.push(last),
            current,
            (fuel - 1) as nat,
        ) + render_children_spec(s, kids.drop_first(), visiting, stack, current, fuel)
    }
}

/// The lines for the whole forest: each sorted root, then its
/// subtree, the walk of each starting with an empty path.
pub open spec fn render_roots_spec(
    s: Seq<BranchView>,
    roots: Seq<Seq<char>>,
    current: Seq<char>,
    fuel: nat,
) -> Seq<Seq<char>>
    decreases roots.len(),
{
    if roots.len() == 0 {
        Seq::empty()
    } else {
        seq![node_line(Seq::empty(), None, roots[0], current)] + render_subtree_spec(
            s,
            roots[0],
            Seq::empty(),
            Seq::empty(),
            current,
            fuel,
        ) + render_roots_spec(s, roots.drop_first(), current, fuel)
    }
}

/// The full rendering of the forest, roots sorted, cycle-safe.
pub open spec fn render_tree_spec(s: Seq<BranchView>, current: Seq<char>) -> Seq<Seq<char>> {
    render_roots_spec(s, sort_names_spec(root_names(s)), current, s.len())
}

/// Build the indentation for the current path.
fn prefix_exec(stack: &Vec<bool>) -> (r: String)
    ensures
        r@ == prefix_of(stack@),
{
    let mut s = String::new();
    let n = stack.len();
    for i in 0..n
        invariant
            n == stack@.len(),
            s@ == prefix_of(stack@.take(i as int)),
    {
        let ghost pre = stack@.take(i as int);
        let ghost cur = stack@.take(i + 1);
        proof {
            assert(cur.drop_last() =~= pre);
            assert(cur.last() == stack@[i as int]);
        }
        if stack[i] {
            s.append("   ");
        } else {
            s.append("│  ");
        }
    }
    proof {
        assert(stack@.take(n as int) =~= stack@);
    }
    s
}

/// Build one node line.
fn render_line(stack: &Vec<bool>, edge: Option<bool>, name: &str, current: &str) -> (r: String)
    ensures
        r@ == node_line(stack@, edge, name@, current@),
{
    let mut line = prefix_exec(stack);
    match edge {
        None => {},
        Some(true) => line.append("└─ "),
        Some(false) => line.append("├─ "),
    }
    line.append(name);
    if str_eq(name, current) {
        line.append(" ← you are here");
    }
    proof {
        assert(line@ =~= node_line(stack@, edge, name@, current@));
    }
    line
}

/// Build one cycle-marker line.
fn cycle_line_exec(stack: &Vec<bool>) -> (r: String)
    ensures
        r@ == cycle_line(stack@),
{
    let mut line = prefix_exec(stack);
    line.append("(cycle detected)");
    line
}

/// Append the rendering of the subtree below `node` to `out`,
/// guarding against cycles with the path `visiting`.
#[verifier::rlimit(100)]
fn render_subtree(
    branches: &Vec<Branch>,
    node: &str,
    visiting: &mut Vec<String>,
    stack: &mut Vec<bool>,
    current: &str,
    fuel: usize,
    out: &mut Vec<String>,
)
    ensures
        final(visiting)@ == old(visiting)@,
        final(stack)@ == old(stack)@,
        final(out).deep_view() == old(out).deep_view() + render_subtree_spec(
            views_of(branches@),
            node@,
            old(visiting).deep_view(),
            old(stack)@,
            current@,
            fuel as nat,
        ),
    decreases fuel,
{
    let ghost s = views_of(branches@);
    let ghost out0 = out.deep_view();
    if name_in_list(visiting, node) {
        let line = cycle_line_exec(stack);
        out.push(line);
        proof {
            assert(out.deep_view() =~= out0 + seq![cycle_line(stack@)]);
        }
        return;
    }
    if fuel == 0 {
        proof {
            assert(out.deep_view() =~= out0 + Seq::<Seq<char>>::empty());
        }
        return;
    }
    visiting.push(node.to_owned());
    let ghost vis1 = visiting.deep_view();
    proof {
        assert(vis1 =~= old(visiting).deep_view().push(node@));
    }
    let ghost vstate = visiting@;
    let kids = sorted_children(branches, node);
    let ghost kseq = kids.deep_view();
    let k = kids.len();
    proof {
        assert(kseq.skip(0) =~= kseq);
    }
    for idx in 0..k
        invariant
            k == kids@.len(),
            kseq == kids.deep_view(),
            visiting@ == vstate,
            vis1 == visiting.deep_view(),
            stack@ == old(stack)@,
            fuel >= 1,
            s == views_of(branches@),
            out.deep_view() + render_children_spec(
                s,
                kseq.skip(idx as int),
                vis1,
                old(stack)@,
                current@,
                fuel as nat,
            ) == out0 + render_children_spec(s, kseq, vis1, old(stack)@, current@, fuel as nat),
    {
        let last = idx + 1 == k;
        let line = render_line(stack, Some(last), kids[idx].as_str(), current);
        let ghost rem = kseq.skip(idx as int);
        proof {
            assert(rem[0] == kseq[idx as int]);
            assert(rem.len() == k - idx);
            assert(rem.drop_first() =~= kseq.skip(idx + 1));
            assert(kids@[idx as int]@ == kseq[idx as int]);
        }
        out.push(line);
        stack.push(last);
        render_subtree(branches, kids[idx].as_str(), visiting, stack, current, fuel - 1, out);
        stack.pop();
        proof {
            assert(stack@ =~= old(stack)@);
        }
    }
    proof {
        assert(kseq.skip(k as int) =~= Seq::<Seq<char>>::empty());
        assert(out.deep_view() =~= out0 + render_children_spec(
            s,
            kseq,
            vis1,
            old(stack)@,
            current@,
            fuel as nat,
        ));
    }
    visiting.pop();
    proof {
        assert(visiting@ =~= old(visiting)@);
        assert(out.deep_view() == out0 + render_subtree_spec(
            s,
            node@,
            old(visiting).deep_view(),
            old(stack)@,
            current@,
            fuel as nat,
        ));
    }
}

/// Render the forest as indented lines, roots sorted, the current
/// branch annotated, and every cycle cut with a marker line.
pub fn print_branch_tree(branches: &Vec<Branch>, current_branch: &str) -> (lines: Vec<String>)
    ensures
        lines.deep_view() == render_tree_spec(views_of(branches@), current_branch@),
{
    let ghost s = views_of(branches@);
    let roots = sorted_roots(branches);
    let ghost rseq = roots.deep_view();
    let mut out: Vec<String> = Vec::new();
    let mut visiting: Vec<String> = Vec::new();
    let mut stack: Vec<bool> = Vec::new();
    let fuel = branches.len();
    let r = roots.len();
    proof {
        assert(rseq.skip(0) =~= rseq);
        assert(out.deep_view() =~= Seq::<Seq<char>>::empty());
    }
    for i in 0..r
        invariant
            r == roots@.len(),
            rseq == roots.deep_view(),
            visiting@ =~= Seq::<String>::empty(),
            stack@ =~= Seq::<bool>::empty(),
            fuel == branches@.len(),
            s == views_of(branches@),
            out.deep_view() + render_roots_spec(s, rseq.skip(i as int), current_branch@, fuel as nat)
                == render_roots_spec(s, rseq, current_branch@, fuel as nat),
    {
        let ghost rem = rseq.skip(i as int);
        proof {
            assert(rem[0] == rseq[i as int]);
            assert(rem.drop_first() =~= rseq.skip(i + 1));
            assert(roots@[i as int]@ == rseq[i as int]);
            assert(stack@ =~= Seq::<bool>::empty());
            assert(visiting.deep_view() =~= Seq::<Seq<char>>::empty());
        }
        let line = render_line(&stack, None, roots[i].as_str(), current_branch);
        out.push(line);
        render_subtree(
            branches,
            roots[i].as_str(),
            &mut visiting,
            &mut stack,
            current_branch,
            fuel,
            &mut out,
        );
    }
    proof {
        assert(rseq.skip(r as int) =~= Seq::<Seq<char>>::empty());
    }
    out
}

} // verus!
