//! The branch forest: tracked branches keyed by name, each with an
//! optional parent and the list of its children, kept as mutually
//! consistent back-references of one logical edge set.

use vstd::prelude::*;

verus! {

/// Everything that can go wrong in the stack engine.
///
/// `AlreadyTracked` is informational (tracking twice is a no-op);
/// the rest are genuine failures. Variants carry no payload: callers
/// know which branch and command they asked about.
#[derive(Clone, Copy, Debug, PartialEq, Eq, Structural)]
pub enum Error {
    /// The name is already a tracked branch.
    AlreadyTracked,
    /// The name is not a tracked branch.
    NotTracked,
    /// The branch still has children and cannot be untracked.
    HasChildren,
    /// The named branch is not tracked.
    UnknownBranch,
    /// The named parent is not tracked.
    UnknownParent,
    /// The current branch has no parent to rebase from.
    NoParent,
    /// The VCS already has a branch of that name.
    BranchAlreadyExists,
    /// No branch matched the given filters.
    NoMatch,
    /// More than one branch matched and no selection was possible.
    AmbiguousMatch,
    /// The external VCS tool reported a failure.
    VcsCommandFailed,
    /// The state file could not be read or written.
    StateIoError,
    /// The state file holds malformed text.
    StateCorrupted,
}

/// A tracked branch: a node of the forest.
pub struct Branch {
    /// Unique identifier; the VCS branch name.
    pub name: String,
    /// Name of the parent branch, or `None` for a root.
    pub parent: Option<String>,
    /// Names of the branches whose `parent` is this branch.
    pub children: Vec<String>,
}

/// The full forest of tracked branches, in insertion order.
pub struct State {
    pub branches: Vec<Branch>,
}

/// Mathematical model of one tracked branch.
#[verifier::ext_equal]
pub ghost struct BranchView {
    pub name: Seq<char>,
    pub parent: Option<Seq<char>>,
    pub children: Seq<Seq<char>>,
}

impl View for Branch {
    type V = BranchView;

    open spec fn view(&self) -> BranchView {
        BranchView {
            name: self.name@,
            parent: match self.parent {
                Some(p) => Some(p@),
                None => None,
            },
            children: self.children.deep_view(),
        }
    }
}

/// The views of a sequence of branches, in order.
pub open spec fn views_of(v: Seq<Branch>) -> Seq<BranchView> {
    Seq::new(v.len(), |i: int| v[i]@)
}

impl View for State {
    type V = Seq<BranchView>;

    open spec fn view(&self) -> Seq<BranchView> {
        views_of(self.branches@)
    }
}

/// Whether some branch of the forest is named `name`.
pub open spec fn is_tracked(s: Seq<BranchView>, name: Seq<char>) -> bool {
    exists|i: int| 0 <= i < s.len() && #[trigger] s[i].name == name
}

/// Index of the first branch named `name`; meaningful only when `is_tracked`.
pub open spec fn index_of(s: Seq<BranchView>, name: Seq<char>) -> int {
    choose|i: int|
        0 <= i < s.len() && #[trigger] s[i].name == name && (forall|k: int|
            0 <= k < i ==> s[k].name != name)
}

/// The first branch named `name`; meaningful only when `is_tracked`.
pub open spec fn branch_of(s: Seq<BranchView>, name: Seq<char>) -> BranchView {
    s[index_of(s, name)]
}

/// A tracked name has a well-defined first index.
pub proof fn lemma_first_tracked(s: Seq<BranchView>, name: Seq<char>)
    requires
        is_tracked(s, name),
    ensures
        0 <= index_of(s, name) < s.len(),
        s[index_of(s, name)].name == name,
        forall|k: int| 0 <= k < index_of(s, name) ==> s[k].name != name,
    decreases s.len(),
{
    if s[0].name == name {
        assert(0 <= 0 < s.len() && s[0].name == name && (forall|k: int|
            0 <= k < 0 ==> s[k].name != name));
    } else {
        let w = choose|i: int| 0 <= i < s.len() && #[trigger] s[i].name == name;
        let rest = s.drop_first();
        assert(rest[w - 1].name == name);
        lemma_first_tracked(rest, name);
        let j = index_of(rest, name);
        assert(s[j + 1].name == name);
        assert(forall|k: int| 0 <= k < j + 1 ==> s[k].name != name) by {
            assert(forall|k: int| 1 <= k < j + 1 ==> s[k].name == rest[k - 1].name);
        }
        assert(0 <= j + 1 < s.len() && s[j + 1].name == name && (forall|k: int|
            0 <= k < j + 1 ==> s[k].name != name));
    }
}

/// Under unique names, `index_of` finds exactly the branch at `i`.
pub proof fn lemma_index_of_unique(s: Seq<BranchView>, i: int)
    requires
        unique_names(s),
        0 <= i < s.len(),
    ensures
        is_tracked(s, s[i].name),
        index_of(s, s[i].name) == i,
        branch_of(s, s[i].name) == s[i],
{
    assert(is_tracked(s, s[i].name));
    lemma_first_tracked(s, s[i].name);
    let j = index_of(s, s[i].name);
    assert(s[j].name == s[i].name);
    if i != j {
        assert(s[i].name != s[j].name);
    }
}

/// Branch names are unique across the forest.
pub open spec fn unique_names(s: Seq<BranchView>) -> bool {
    forall|i: int, j: int|
        0 <= i < s.len() && 0 <= j < s.len() && i != j ==> #[trigger] s[i].name
            != #[trigger] s[j].name
}

/// Every `children` entry points back: the child is tracked and its
/// `parent` names the owner.
pub open spec fn children_linked(s: Seq<BranchView>) -> bool {
    forall|i: int, k: int|
        0 <= i < s.len() && 0 <= k < s[i].children.len() ==> {
            let c = #[trigger] s[i].children[k];
            is_tracked(s, c) && branch_of(s, c).parent == Some(s[i].name)
        }
}

/// Every `parent` pointer points forward: the parent is tracked and
/// its `children` hold the owner's name.
pub open spec fn parents_linked(s: Seq<BranchView>) -> bool {
    forall|i: int|
        0 <= i < s.len() ==> match #[trigger] s[i].parent {
            Some(p) => is_tracked(s, p) && branch_of(s, p).children.contains(s[i].name),
            None => true,
        }
}

/// Forest well-formedness: unique names and the two sides of the
/// parent/child relation kept consistent.
pub open spec fn wf(s: Seq<BranchView>) -> bool {
    unique_names(s) && children_linked(s) && parents_linked(s)
}

/// The first index of a tracked name does not move when entries are
/// appended or rewritten without renaming.
pub proof fn lemma_first_index_extend(s: Seq<BranchView>, t: Seq<BranchView>, c: Seq<char>)
    requires
        t.len() >= s.len(),
        forall|i: int| 0 <= i < s.len() ==> #[trigger] t[i].name == s[i].name,
        is_tracked(s, c),
    ensures
        is_tracked(t, c),
        index_of(t, c) == index_of(s, c),
{
    lemma_first_tracked(s, c);
    let j = index_of(s, c);
    assert(t[j].name == c);
    assert(is_tracked(t, c));
    lemma_first_tracked(t, c);
    let j2 = index_of(t, c);
    if j2 < j {
        assert(s[j2].name == t[j2].name);
    }
    if j2 > j {
        assert(t[j].name != c);
    }
}

/// What survives a strip: exactly the entries other than `n`.
pub proof fn lemma_strip_children_contains(cs: Seq<Seq<char>>, n: Seq<char>)
    ensures
        forall|x: Seq<char>|
            #[trigger] strip_children(cs, n).contains(x) <==> cs.contains(x) && x != n,
    decreases cs.len(),
{
    if cs.len() > 0 {
        lemma_strip_children_contains(cs.drop_last(), n);
        assert forall|x: Seq<char>|
            #[trigger] strip_children(cs, n).contains(x) <==> cs.contains(x) && x != n by {
            assert(cs.drop_last().push(cs.last()) =~= cs);
            if strip_children(cs, n).contains(x) {
                let rest = strip_children(cs.drop_last(), n);
                let v = choose|v: int|
                    0 <= v < strip_children(cs, n).len() && strip_children(cs, n)[v] == x;
                if cs.last() != n && v == rest.len() {
                    assert(x == cs.last());
                    assert(cs[cs.len() - 1] == x);
                    assert(cs.contains(x) && x != n);
                } else {
                    assert(rest[v] == x);
                    assert(rest.contains(x));
                    assert(cs.drop_last().contains(x) && x != n);
                    let u = choose|u: int| 0 <= u < cs.drop_last().len() && cs.drop_last()[u] == x;
                    assert(cs[u] == x);
                    assert(cs.contains(x));
                }
            }
            if cs.contains(x) && x != n {
                let w = choose|w: int| 0 <= w < cs.len() && cs[w] == x;
                if w == cs.len() - 1 {
                    assert(strip_children(cs, n) == strip_children(cs.drop_last(), n).push(x));
                    assert(strip_children(cs, n)[strip_children(cs.drop_last(), n).len() as int]
                        == x);
                    assert(strip_children(cs, n).contains(x));
                } else {
                    assert(cs.drop_last()[w] == x);
                    assert(cs.drop_last().contains(x));
                    assert(strip_children(cs.drop_last(), n).contains(x));
                    let v = choose|v: int|
                        0 <= v < strip_children(cs.drop_last(), n).len() && strip_children(
                            cs.drop_last(),
                            n,
                        )[v] == x;
                    if cs.last() != n {
                        assert(strip_children(cs, n)[v] == x);
                    }
                    assert(strip_children(cs, n).contains(x));
                }
            }
        }
    }
}

/// Tracking a new root keeps the forest well-formed.
pub proof fn lemma_insert_root_preserves_wf(s: Seq<BranchView>, name: Seq<char>)
    requires
        wf(s),
        !is_tracked(s, name),
    ensures
        wf(s.push(root_branch(name))),
{
    let t = s.push(root_branch(name));
    assert forall|i: int| 0 <= i < s.len() implies #[trigger] t[i].name == s[i].name by {}
    assert(unique_names(t)) by {
        assert forall|i: int, j: int|
            0 <= i < t.len() && 0 <= j < t.len() && i != j implies #[trigger] t[i].name
            != #[trigger] t[j].name by {
            if i < s.len() && j < s.len() {
                assert(s[i].name != s[j].name);
            } else if i < s.len() {
                assert(!is_tracked(s, name) ==> s[i].name != name);
            } else {
                assert(s[j].name != name);
            }
        }
    }
    assert(children_linked(t)) by {
        assert forall|i: int, k: int|
            0 <= i < t.len() && 0 <= k < t[i].children.len() implies {
            let c = #[trigger] t[i].children[k];
            is_tracked(t, c) && branch_of(t, c).parent == Some(t[i].name)
        } by {
            if i < s.len() {
                let c = t[i].children[k];
                assert(c == s[i].children[k]);
                assert(is_tracked(s, c) && branch_of(s, c).parent == Some(s[i].name));
                lemma_first_index_extend(s, t, c);
            }
        }
    }
    assert(parents_linked(t)) by {
        assert forall|i: int| 0 <= i < t.len() implies match #[trigger] t[i].parent {
            Some(p) => is_tracked(t, p) && branch_of(t, p).children.contains(t[i].name),
            None => true,
        } by {
            if i < s.len() {
                match s[i].parent {
                    Some(p) => {
                        assert(is_tracked(s, p) && branch_of(s, p).children.contains(s[i].name));
                        lemma_first_index_extend(s, t, p);
                    },
                    None => {},
                }
            }
        }
    }
}

/// Tracking a child under a tracked parent keeps the forest
/// well-formed: both sides of the new edge go in together.
#[verifier::rlimit(60)]
pub proof fn lemma_insert_child_preserves_wf(s: Seq<BranchView>, name: Seq<char>, parent: Seq<
    char,
>)
    requires
        wf(s),
        !is_tracked(s, name),
        is_tracked(s, parent),
    ensures
        wf(insert_child_spec(s, name, parent)),
{
    lemma_first_tracked(s, parent);
    let j = index_of(s, parent);
    let t = insert_child_spec(s, name, parent);
    assert(t[j].children == s[j].children.push(name));
    assert forall|i: int| 0 <= i < s.len() implies #[trigger] t[i].name == s[i].name by {}
    assert(t[s.len() as int] == child_branch(name, parent));
    assert(unique_names(t)) by {
        assert forall|a: int, b: int|
            0 <= a < t.len() && 0 <= b < t.len() && a != b implies #[trigger] t[a].name
            != #[trigger] t[b].name by {
            if a < s.len() && b < s.len() {
                assert(s[a].name != s[b].name);
            } else if a < s.len() {
                assert(s[a].name != name);
            } else if b < s.len() {
                assert(s[b].name != name);
            }
        }
    }
    assert(children_linked(t)) by {
        assert forall|i: int, k: int|
            0 <= i < t.len() && 0 <= k < t[i].children.len() implies {
            let c = #[trigger] t[i].children[k];
            is_tracked(t, c) && branch_of(t, c).parent == Some(t[i].name)
        } by {
            let c = t[i].children[k];
            if i < s.len() {
                if i == j && k == s[j].children.len() {
                    assert(c == name);
                    assert(t[s.len() as int].name == name);
                    assert(is_tracked(t, c));
                    lemma_first_tracked(t, c);
                    let m = index_of(t, c);
                    assert(t[m].name == name);
                    if m < s.len() {
                        assert(s[m].name == name);
                        assert(is_tracked(s, name));
                    }
                    assert(m == s.len());
                    assert(branch_of(t, c).parent == Some(parent));
                    assert(t[i].name == parent);
                } else {
                    assert(c == s[i].children[k]);
                    assert(is_tracked(s, c) && branch_of(s, c).parent == Some(s[i].name));
                    lemma_first_tracked(s, c);
                    lemma_first_index_extend(s, t, c);
                    let m = index_of(s, c);
                    assert(branch_of(t, c) == t[m]);
                    assert(t[m].parent == s[m].parent);
                }
            }
        }
    }
    assert(parents_linked(t)) by {
        assert forall|i: int| 0 <= i < t.len() implies match #[trigger] t[i].parent {
            Some(p) => is_tracked(t, p) && branch_of(t, p).children.contains(t[i].name),
            None => true,
        } by {
            if i < s.len() {
                match s[i].parent {
                    Some(p) => {
                        assert(t[i].parent == Some(p));
                        assert(is_tracked(s, p) && branch_of(s, p).children.contains(s[i].name));
                        lemma_first_index_extend(s, t, p);
                        let m = index_of(s, p);
                        assert(branch_of(t, p) == t[m]);
                        if m == j {
                            assert(s[j].children.contains(s[i].name));
                            let w = choose|w: int|
                                0 <= w < s[j].children.len() && s[j].children[w] == s[i].name;
                            assert(t[j].children[w] == s[i].name);
                            assert(t[j].children.contains(t[i].name));
                        } else {
                            assert(t[m].children == s[m].children);
                        }
                    },
                    None => {},
                }
            } else {
                assert(t[i].parent == Some(parent));
                lemma_first_index_extend(s, t, parent);
                assert(branch_of(t, parent) == t[j]);
                assert(t[j].children[s[j].children.len() as int] == name);
                assert(t[j].children.contains(name));
            }
        }
    }
}

/// Untracking removes exactly the name `n` from the tracked set.
pub proof fn lemma_remove_spec_tracked(s: Seq<BranchView>, n: Seq<char>)
    ensures
        forall|x: Seq<char>|
            #[trigger] is_tracked(remove_spec(s, n), x) <==> is_tracked(s, x) && x != n,
    decreases s.len(),
{
    if s.len() > 0 {
        lemma_remove_spec_tracked(s.drop_last(), n);
        let t = remove_spec(s, n);
        let rest = remove_spec(s.drop_last(), n);
        assert forall|x: Seq<char>| #[trigger]
            is_tracked(t, x) <==> is_tracked(s, x) && x != n by {
            if is_tracked(t, x) {
                let v = choose|v: int| 0 <= v < t.len() && t[v].name == x;
                if s.last().name != n && v == rest.len() {
                    assert(x == s.last().name);
                    assert(s[s.len() - 1].name == x);
                    assert(is_tracked(s, x) && x != n);
                } else {
                    assert(rest[v].name == x);
                    assert(is_tracked(rest, x));
                    assert(is_tracked(s.drop_last(), x) && x != n);
                    let u = choose|u: int| 0 <= u < s.drop_last().len() && s.drop_last()[u].name
                        == x;
                    assert(s[u].name == x);
                    assert(is_tracked(s, x));
                }
            }
            if is_tracked(s, x) && x != n {
                let w = choose|w: int| 0 <= w < s.len() && s[w].name == x;
                if w == s.len() - 1 {
                    assert(t == rest.push(without_child(s.last(), n)));
                    assert(t[rest.len() as int].name == x);
                    assert(is_tracked(t, x));
                } else {
                    assert(s.drop_last()[w].name == x);
                    assert(is_tracked(s.drop_last(), x));
                    assert(is_tracked(rest, x));
                    let v = choose|v: int| 0 <= v < rest.len() && rest[v].name == x;
                    if s.last().name != n {
                        assert(t[v].name == x);
                    }
                    assert(is_tracked(t, x));
                }
            }
        }
    }
}

/// Untracking keeps names unique.
pub proof fn lemma_remove_spec_unique(s: Seq<BranchView>, n: Seq<char>)
    requires
        unique_names(s),
    ensures
        unique_names(remove_spec(s, n)),
    decreases s.len(),
{
    if s.len() > 0 {
        assert(forall|i: int, j: int|
            0 <= i < s.drop_last().len() && 0 <= j < s.drop_last().len() && i != j
                ==> #[trigger] s.drop_last()[i].name != #[trigger] s.drop_last()[j].name) by {
            assert(forall|i: int|
                0 <= i < s.drop_last().len() ==> #[trigger] s.drop_last()[i] == s[i]);
        }
        lemma_remove_spec_unique(s.drop_last(), n);
        lemma_remove_spec_tracked(s.drop_last(), n);
        let t = remove_spec(s, n);
        let rest = remove_spec(s.drop_last(), n);
        if s.last().name != n {
            assert forall|i: int, j: int|
                0 <= i < t.len() && 0 <= j < t.len() && i != j implies #[trigger] t[i].name
                != #[trigger] t[j].name by {
                if i < rest.len() && j < rest.len() {
                    assert(rest[i].name != rest[j].name);
                } else {
                    let a = if i < rest.len() {
                        i
                    } else {
                        j
                    };
                    assert(t[a] == rest[a]);
                    assert(rest[a].name == t[a].name);
                    assert(is_tracked(rest, rest[a].name));
                    assert(is_tracked(s.drop_last(), rest[a].name));
                    let u = choose|u: int|
                        0 <= u < s.drop_last().len() && s.drop_last()[u].name == rest[a].name;
                    assert(s[u].name == rest[a].name);
                    assert(s[s.len() - 1].name != s[u].name);
                }
            }
        }
    }
}

/// Every surviving entry of an untrack is a stripped copy of an
/// entry of the original forest not named `n`.
pub proof fn lemma_remove_spec_elems(s: Seq<BranchView>, n: Seq<char>)
    ensures
        forall|i: int|
            0 <= i < remove_spec(s, n).len() ==> exists|j: int|
                0 <= j < s.len() && #[trigger] remove_spec(s, n)[i] == without_child(s[j], n)
                    && s[j].name != n,
    decreases s.len(),
{
    if s.len() > 0 {
        lemma_remove_spec_elems(s.drop_last(), n);
        let t = remove_spec(s, n);
        let rest = remove_spec(s.drop_last(), n);
        assert forall|i: int| 0 <= i < t.len() implies exists|j: int|
            0 <= j < s.len() && #[trigger] t[i] == without_child(s[j], n) && s[j].name != n by {
            if s.last().name != n && i == rest.len() {
                assert(t[i] == without_child(s[s.len() - 1], n) && s[s.len() - 1].name != n);
            } else {
                assert(t[i] == rest[i]);
                let j = choose|j: int|
                    0 <= j < s.drop_last().len() && rest[i] == without_child(
                        s.drop_last()[j],
                        n,
                    ) && s.drop_last()[j].name != n;
                assert(t[i] == without_child(s[j], n) && s[j].name != n);
            }
        }
    }
}

/// Untracking `n` strips `n` out of the record of every other
/// tracked name and touches nothing else of it.
#[verifier::rlimit(100)]
pub proof fn lemma_remove_spec_branch_of(s: Seq<BranchView>, n: Seq<char>, x: Seq<char>)
    requires
        unique_names(s),
        is_tracked(s, x),
        x != n,
    ensures
        is_tracked(remove_spec(s, n), x),
        branch_of(remove_spec(s, n), x) == without_child(branch_of(s, x), n),
    decreases s.len(),
{
    lemma_remove_spec_tracked(s, n);
    lemma_remove_spec_unique(s, n);
    let t = remove_spec(s, n);
    let rest = remove_spec(s.drop_last(), n);
    let m = choose|m: int| 0 <= m < s.len() && s[m].name == x;
    lemma_index_of_unique(s, m);
    assert(branch_of(s, x) == s[m]);
    assert(forall|i: int, j: int|
        0 <= i < s.drop_last().len() && 0 <= j < s.drop_last().len() && i != j
            ==> #[trigger] s.drop_last()[i].name != #[trigger] s.drop_last()[j].name) by {
        assert(forall|i: int|
            0 <= i < s.drop_last().len() ==> #[trigger] s.drop_last()[i] == s[i]);
    }
    if s.last().name == n {
        assert(m < s.len() - 1);
        assert(s.drop_last()[m].name == x);
        assert(is_tracked(s.drop_last(), x));
        lemma_remove_spec_branch_of(s.drop_last(), n, x);
        lemma_index_of_unique(s.drop_last(), m);
        assert(branch_of(s.drop_last(), x) == s[m]);
        assert(t == rest);
    } else {
        if m == s.len() - 1 {
            assert(t[rest.len() as int] == without_child(s[m], n));
            lemma_index_of_unique(t, rest.len() as int);
            assert(branch_of(t, x) == without_child(s[m], n));
        } else {
            assert(s.drop_last()[m].name == x);
            assert(is_tracked(s.drop_last(), x));
            lemma_remove_spec_branch_of(s.drop_last(), n, x);
            lemma_index_of_unique(s.drop_last(), m);
            assert(branch_of(s.drop_last(), x) == s[m]);
            lemma_remove_spec_unique(s.drop_last(), n);
            let v = choose|v: int| 0 <= v < rest.len() && rest[v].name == x;
            lemma_index_of_unique(rest, v);
            assert(rest[v] == without_child(s[m], n));
            assert(t[v] == rest[v]);
            lemma_index_of_unique(t, v);
        }
    }
}

/// Untracking a childless branch keeps the forest well-formed.
#[verifier::rlimit(60)]
pub proof fn lemma_remove_preserves_wf(s: Seq<BranchView>, n: Seq<char>)
    requires
        wf(s),
        is_tracked(s, n),
        branch_of(s, n).children.len() == 0,
    ensures
        wf(remove_spec(s, n)),
{
    let t = remove_spec(s, n);
    lemma_remove_spec_tracked(s, n);
    lemma_remove_spec_unique(s, n);
    lemma_remove_spec_elems(s, n);
    lemma_first_tracked(s, n);
    assert(children_linked(t)) by {
        assert forall|i: int, k: int|
            0 <= i < t.len() && 0 <= k < t[i].children.len() implies {
            let c = #[trigger] t[i].children[k];
            is_tracked(t, c) && branch_of(t, c).parent == Some(t[i].name)
        } by {
            let c = t[i].children[k];
            let j = choose|j: int|
                0 <= j < s.len() && t[i] == without_child(s[j], n) && s[j].name != n;
            lemma_strip_children_contains(s[j].children, n);
            assert(strip_children(s[j].children, n).contains(c));
            assert(s[j].children.contains(c) && c != n);
            let w = choose|w: int| 0 <= w < s[j].children.len() && s[j].children[w] == c;
            assert(is_tracked(s, c) && branch_of(s, c).parent == Some(s[j].name));
            lemma_remove_spec_branch_of(s, n, c);
        }
    }
    assert(parents_linked(t)) by {
        assert forall|i: int| 0 <= i < t.len() implies match #[trigger] t[i].parent {
            Some(p) => is_tracked(t, p) && branch_of(t, p).children.contains(t[i].name),
            None => true,
        } by {
            let j = choose|j: int|
                0 <= j < s.len() && t[i] == without_child(s[j], n) && s[j].name != n;
            match s[j].parent {
                Some(p) => {
                    assert(t[i].parent == Some(p));
                    assert(is_tracked(s, p) && branch_of(s, p).children.contains(s[j].name));
                    if p == n {
                        let w = choose|w: int|
                            0 <= w < branch_of(s, n).children.len() && branch_of(s, n).children[w]
                                == s[j].name;
                        assert(false);
                    }
                    lemma_remove_spec_branch_of(s, n, p);
                    lemma_strip_children_contains(branch_of(s, p).children, n);
                    assert(branch_of(t, p).children.contains(s[j].name));
                    assert(t[i].name == s[j].name);
                },
                None => {
                    assert(t[i].parent is None);
                },
            }
        }
    }
}

/// What survives a prune of a children list: exactly the entries
/// naming no removed branch.
pub proof fn lemma_strip_all_contains(cs: Seq<Seq<char>>, removed: Seq<Seq<char>>)
    ensures
        forall|x: Seq<char>|
            #[trigger] strip_all(cs, removed).contains(x) <==> cs.contains(x) && !removed.contains(
                x,
            ),
    decreases cs.len(),
{
    if cs.len() > 0 {
        lemma_strip_all_contains(cs.drop_last(), removed);
        assert forall|x: Seq<char>|
            #[trigger] strip_all(cs, removed).contains(x) <==> cs.contains(x) && !removed.contains(
                x,
            ) by {
            assert(cs.drop_last().push(cs.last()) =~= cs);
            let rest = strip_all(cs.drop_last(), removed);
            if strip_all(cs, removed).contains(x) {
                let v = choose|v: int|
                    0 <= v < strip_all(cs, removed).len() && strip_all(cs, removed)[v] == x;
                if !removed.contains(cs.last()) && v == rest.len() {
                    assert(x == cs.last());
                    assert(cs[cs.len() - 1] == x);
                    assert(cs.contains(x) && !removed.contains(x));
                } else {
                    assert(rest[v] == x);
                    assert(rest.contains(x));
                    assert(cs.drop_last().contains(x) && !removed.contains(x));
                    let u = choose|u: int| 0 <= u < cs.drop_last().len() && cs.drop_last()[u] == x;
                    assert(cs[u] == x);
                    assert(cs.contains(x));
                }
            }
            if cs.contains(x) && !removed.contains(x) {
                let w = choose|w: int| 0 <= w < cs.len() && cs[w] == x;
                if w == cs.len() - 1 {
                    assert(strip_all(cs, removed) == rest.push(x));
                    assert(strip_all(cs, removed)[rest.len() as int] == x);
                    assert(strip_all(cs, removed).contains(x));
                } else {
                    assert(cs.drop_last()[w] == x);
                    assert(cs.drop_last().contains(x));
                    assert(rest.contains(x));
                    let v = choose|v: int| 0 <= v < rest.len() && rest[v] == x;
                    if !removed.contains(cs.last()) {
                        assert(strip_all(cs, removed)[v] == x);
                    }
                    assert(strip_all(cs, removed).contains(x));
                }
            }
        }
    }
}

/// What a prune removes: exactly the tracked names with no entry in
/// `keep`.
pub proof fn lemma_removed_names_membership(s: Seq<BranchView>, keep: Seq<Seq<char>>)
    ensures
        forall|x: Seq<char>|
            #[trigger] removed_names(s, keep).contains(x) <==> is_tracked(s, x) && !keep.contains(
                x,
            ),
    decreases s.len(),
{
    if s.len() > 0 {
        lemma_removed_names_membership(s.drop_last(), keep);
        assert forall|x: Seq<char>|
            #[trigger] removed_names(s, keep).contains(x) <==> is_tracked(s, x) && !keep.contains(
                x,
            ) by {
            let rest = removed_names(s.drop_last(), keep);
            if removed_names(s, keep).contains(x) {
                let v = choose|v: int|
                    0 <= v < removed_names(s, keep).len() && removed_names(s, keep)[v] == x;
                if !keep.contains(s.last().name) && v == rest.len() {
                    assert(x == s.last().name);
                    assert(s[s.len() - 1].name == x);
                    assert(is_tracked(s, x) && !keep.contains(x));
                } else {
                    assert(rest[v] == x);
                    assert(rest.contains(x));
                    assert(is_tracked(s.drop_last(), x) && !keep.contains(x));
                    let u = choose|u: int| 0 <= u < s.drop_last().len() && s.drop_last()[u].name
                        == x;
                    assert(s[u].name == x);
                    assert(is_tracked(s, x));
                }
            }
            if is_tracked(s, x) && !keep.contains(x) {
                let w = choose|w: int| 0 <= w < s.len() && s[w].name == x;
                if w == s.len() - 1 {
                    assert(removed_names(s, keep) == rest.push(x));
                    assert(removed_names(s, keep)[rest.len() as int] == x);
                    assert(removed_names(s, keep).contains(x));
                } else {
                    assert(s.drop_last()[w].name == x);
                    assert(is_tracked(s.drop_last(), x));
                    assert(rest.contains(x));
                    let v = choose|v: int| 0 <= v < rest.len() && rest[v] == x;
                    if keep.contains(s.last().name) {
                        assert(removed_names(s, keep)[v] == x);
                    } else {
                        assert(removed_names(s, keep)[v] == x);
                    }
                    assert(removed_names(s, keep).contains(x));
                }
            }
        }
    }
}

/// Pruning removes exactly the names in `rm` from the tracked set.
pub proof fn lemma_prune_spec_tracked(s: Seq<BranchView>, rm: Seq<Seq<char>>)
    ensures
        forall|x: Seq<char>|
            #[trigger] is_tracked(prune_spec(s, rm), x) <==> is_tracked(s, x) && !rm.contains(x),
    decreases s.len(),
{
    if s.len() > 0 {
        lemma_prune_spec_tracked(s.drop_last(), rm);
        let t = prune_spec(s, rm);
        let rest = prune_spec(s.drop_last(), rm);
        assert forall|x: Seq<char>| #[trigger]
            is_tracked(t, x) <==> is_tracked(s, x) && !rm.contains(x) by {
            if is_tracked(t, x) {
                let v = choose|v: int| 0 <= v < t.len() && t[v].name == x;
                if !rm.contains(s.last().name) && v == rest.len() {
                    assert(x == s.last().name);
                    assert(s[s.len() - 1].name == x);
                } else {
                    assert(rest[v].name == x);
                    assert(is_tracked(rest, x));
                    assert(is_tracked(s.drop_last(), x) && !rm.contains(x));
                    let u = choose|u: int| 0 <= u < s.drop_last().len() && s.drop_last()[u].name
                        == x;
                    assert(s[u].name == x);
                }
            }
            if is_tracked(s, x) && !rm.contains(x) {
                let w = choose|w: int| 0 <= w < s.len() && s[w].name == x;
                if w == s.len() - 1 {
                    assert(t == rest.push(prune_fix(s.last(), rm)));
                    assert(t[rest.len() as int].name == x);
                    assert(is_tracked(t, x));
                } else {
                    assert(s.drop_last()[w].name == x);
                    assert(is_tracked(s.drop_last(), x));
                    assert(is_tracked(rest, x));
                    let v = choose|v: int| 0 <= v < rest.len() && rest[v].name == x;
                    if !rm.contains(s.last().name) {
                        assert(t[v].name == x);
                    }
                    assert(is_tracked(t, x));
                }
            }
        }
    }
}

/// Pruning keeps names unique.
pub proof fn lemma_prune_spec_unique(s: Seq<BranchView>, rm: Seq<Seq<char>>)
    requires
        unique_names(s),
    ensures
        unique_names(prune_spec(s, rm)),
    decreases s.len(),
{
    if s.len() > 0 {
        assert(forall|i: int, j: int|
            0 <= i < s.drop_last().len() && 0 <= j < s.drop_last().len() && i != j
                ==> #[trigger] s.drop_last()[i].name != #[trigger] s.drop_last()[j].name) by {
            assert(forall|i: int|
                0 <= i < s.drop_last().len() ==> #[trigger] s.drop_last()[i] == s[i]);
        }
        lemma_prune_spec_unique(s.drop_last(), rm);
        lemma_prune_spec_tracked(s.drop_last(), rm);
        let t = prune_spec(s, rm);
        let rest = prune_spec(s.drop_last(), rm);
        if !rm.contains(s.last().name) {
            assert forall|i: int, j: int|
                0 <= i < t.len() && 0 <= j < t.len() && i != j implies #[trigger] t[i].name
                != #[trigger] t[j].name by {
                if i < rest.len() && j < rest.len() {
                    assert(rest[i].name != rest[j].name);
                } else {
                    let a = if i < rest.len() {
                        i
                    } else {
                        j
                    };
                    assert(t[a] == rest[a]);
                    assert(is_tracked(rest, rest[a].name));
                    assert(is_tracked(s.drop_last(), rest[a].name));
                    let u = choose|u: int|
                        0 <= u < s.drop_last().len() && s.drop_last()[u].name == rest[a].name;
                    assert(s[u].name == rest[a].name);
                    assert(s[s.len() - 1].name != s[u].name);
                }
            }
        }
    }
}

/// Every surviving entry of a prune is a fixed-up copy of an entry
/// of the original forest whose name was kept.
pub proof fn lemma_prune_spec_elems(s: Seq<BranchView>, rm: Seq<Seq<char>>)
    ensures
        forall|i: int|
            0 <= i < prune_spec(s, rm).len() ==> exists|j: int|
                0 <= j < s.len() && #[trigger] prune_spec(s, rm)[i] == prune_fix(s[j], rm)
                    && !rm.contains(s[j].name),
    decreases s.len(),
{
    if s.len() > 0 {
        lemma_prune_spec_elems(s.drop_last(), rm);
        let t = prune_spec(s, rm);
        let rest = prune_spec(s.drop_last(), rm);
        assert forall|i: int| 0 <= i < t.len() implies exists|j: int|
            0 <= j < s.len() && #[trigger] t[i] == prune_fix(s[j], rm) && !rm.contains(
                s[j].name,
            ) by {
            if !rm.contains(s.last().name) && i == rest.len() {
                assert(t[i] == prune_fix(s[s.len() - 1], rm) && !rm.contains(s[s.len() - 1].name));
            } else {
                assert(t[i] == rest[i]);
                let j = choose|j: int|
                    0 <= j < s.drop_last().len() && rest[i] == prune_fix(s.drop_last()[j], rm)
                        && !rm.contains(s.drop_last()[j].name);
                assert(t[i] == prune_fix(s[j], rm) && !rm.contains(s[j].name));
            }
        }
    }
}

/// Pruning rewrites the record of every kept name by `prune_fix`
/// and touches nothing else of it.
#[verifier::rlimit(100)]
pub proof fn lemma_prune_spec_branch_of(s: Seq<BranchView>, rm: Seq<Seq<char>>, x: Seq<char>)
    requires
        unique_names(s),
        is_tracked(s, x),
        !rm.contains(x),
    ensures
        is_tracked(prune_spec(s, rm), x),
        branch_of(prune_spec(s, rm), x) == prune_fix(branch_of(s, x), rm),
    decreases s.len(),
{
    lemma_prune_spec_tracked(s, rm);
    lemma_prune_spec_unique(s, rm);
    let t = prune_spec(s, rm);
    let rest = prune_spec(s.drop_last(), rm);
    let m = choose|m: int| 0 <= m < s.len() && s[m].name == x;
    lemma_index_of_unique(s, m);
    assert(branch_of(s, x) == s[m]);
    assert(forall|i: int, j: int|
        0 <= i < s.drop_last().len() && 0 <= j < s.drop_last().len() && i != j
            ==> #[trigger] s.drop_last()[i].name != #[trigger] s.drop_last()[j].name) by {
        assert(forall|i: int|
            0 <= i < s.drop_last().len() ==> #[trigger] s.drop_last()[i] == s[i]);
    }
    if rm.contains(s.last().name) {
        assert(m < s.len() - 1);
        assert(s.drop_last()[m].name == x);
        assert(is_tracked(s.drop_last(), x));
        lemma_prune_spec_branch_of(s.drop_last(), rm, x);
        lemma_index_of_unique(s.drop_last(), m);
        assert(branch_of(s.drop_last(), x) == s[m]);
        assert(t == rest);
    } else {
        if m == s.len() - 1 {
            assert(t[rest.len() as int] == prune_fix(s[m], rm));
            lemma_index_of_unique(t, rest.len() as int);
            assert(branch_of(t, x) == prune_fix(s[m], rm));
        } else {
            assert(s.drop_last()[m].name == x);
            assert(is_tracked(s.drop_last(), x));
            lemma_prune_spec_branch_of(s.drop_last(), rm, x);
            lemma_index_of_unique(s.drop_last(), m);
            assert(branch_of(s.drop_last(), x) == s[m]);
            lemma_prune_spec_unique(s.drop_last(), rm);
            let v = choose|v: int| 0 <= v < rest.len() && rest[v].name == x;
            lemma_index_of_unique(rest, v);
            assert(rest[v] == prune_fix(s[m], rm));
            assert(t[v] == rest[v]);
            lemma_index_of_unique(t, v);
        }
    }
}

/// Pruning against the VCS branch list keeps the forest well-formed.
#[verifier::rlimit(60)]
pub proof fn lemma_prune_preserves_wf(s: Seq<BranchView>, keep: Seq<Seq<char>>)
    requires
        wf(s),
    ensures
        wf(prune_spec(s, removed_names(s, keep))),
{
    let rm = removed_names(s, keep);
    let t = prune_spec(s, rm);
    lemma_prune_spec_tracked(s, rm);
    lemma_prune_spec_unique(s, rm);
    lemma_prune_spec_elems(s, rm);
    lemma_removed_names_membership(s, keep);
    assert(children_linked(t)) by {
        assert forall|i: int, k: int|
            0 <= i < t.len() && 0 <= k < t[i].children.len() implies {
            let c = #[trigger] t[i].children[k];
            is_tracked(t, c) && branch_of(t, c).parent == Some(t[i].name)
        } by {
            let c = t[i].children[k];
            let j = choose|j: int|
                0 <= j < s.len() && t[i] == prune_fix(s[j], rm) && !rm.contains(s[j].name);
            lemma_strip_all_contains(s[j].children, rm);
            assert(strip_all(s[j].children, rm).contains(c));
            assert(s[j].children.contains(c) && !rm.contains(c));
            let w = choose|w: int| 0 <= w < s[j].children.len() && s[j].children[w] == c;
            assert(is_tracked(s, c) && branch_of(s, c).parent == Some(s[j].name));
            lemma_prune_spec_branch_of(s, rm, c);
            assert(branch_of(t, c).parent == Some(s[j].name));
            assert(t[i].name == s[j].name);
        }
    }
    assert(parents_linked(t)) by {
        assert forall|i: int| 0 <= i < t.len() implies match #[trigger] t[i].parent {
            Some(p) => is_tracked(t, p) && branch_of(t, p).children.contains(t[i].name),
            None => true,
        } by {
            let j = choose|j: int|
                0 <= j < s.len() && t[i] == prune_fix(s[j], rm) && !rm.contains(s[j].name);
            match s[j].parent {
                Some(p) => {
                    if rm.contains(p) {
                        assert(t[i].parent is None);
                    } else {
                        assert(t[i].parent == Some(p));
                        assert(is_tracked(s, p) && branch_of(s, p).children.contains(s[j].name));
                        lemma_prune_spec_branch_of(s, rm, p);
                        lemma_strip_all_contains(branch_of(s, p).children, rm);
                        assert(branch_of(t, p).children.contains(s[j].name));
                        assert(t[i].name == s[j].name);
                    }
                },
                None => {
                    assert(t[i].parent is None);
                },
            }
        }
    }
}

/// Prune soundness: after a prune against the VCS list `keep`,
/// every surviving branch's name has an entry in `keep`, and no
/// surviving branch's parent or children mention a removed name.
pub proof fn lemma_prune_sound(s: Seq<BranchView>, keep: Seq<Seq<char>>)
    ensures
        forall|i: int|
            0 <= i < prune_spec(s, removed_names(s, keep)).len() ==> keep.contains(
                #[trigger] prune_spec(s, removed_names(s, keep))[i].name,
            ),
        forall|i: int|
            0 <= i < prune_spec(s, removed_names(s, keep)).len()
                ==> match #[trigger] prune_spec(s, removed_names(s, keep))[i].parent {
                Some(p) => !removed_names(s, keep).contains(p),
                None => true,
            },
        forall|i: int, k: int|
            0 <= i < prune_spec(s, removed_names(s, keep)).len() && 0 <= k < prune_spec(
                s,
                removed_names(s, keep),
            )[i].children.len() ==> !removed_names(s, keep).contains(
                #[trigger] prune_spec(s, removed_names(s, keep))[i].children[k],
            ),
{
    let rm = removed_names(s, keep);
    let t = prune_spec(s, rm);
    lemma_prune_spec_elems(s, rm);
    lemma_removed_names_membership(s, keep);
    assert forall|i: int| 0 <= i < t.len() implies keep.contains(#[trigger] t[i].name) by {
        let j = choose|j: int|
            0 <= j < s.len() && t[i] == prune_fix(s[j], rm) && !rm.contains(s[j].name);
        assert(is_tracked(s, s[j].name));
        assert(t[i].name == s[j].name);
    }
    assert forall|i: int| 0 <= i < t.len() implies match #[trigger] t[i].parent {
        Some(p) => !rm.contains(p),
        None => true,
    } by {
        let j = choose|j: int|
            0 <= j < s.len() && t[i] == prune_fix(s[j], rm) && !rm.contains(s[j].name);
        match s[j].parent {
            Some(p) => {},
            None => {},
        }
    }
    assert forall|i: int, k: int|
        0 <= i < t.len() && 0 <= k < t[i].children.len() implies !rm.contains(
        #[trigger] t[i].children[k],
    ) by {
        let j = choose|j: int|
            0 <= j < s.len() && t[i] == prune_fix(s[j], rm) && !rm.contains(s[j].name);
        lemma_strip_all_contains(s[j].children, rm);
        assert(strip_all(s[j].children, rm).contains(t[i].children[k]));
    }
}

/// Re-parenting onto a tracked branch keeps the forest well-formed:
/// the one edge moves, both sides updated together.
#[verifier::rlimit(100)]
pub proof fn lemma_reparent_preserves_wf(s: Seq<BranchView>, n: Seq<char>, np: Seq<char>)
    requires
        wf(s),
        is_tracked(s, n),
        is_tracked(s, np),
    ensures
        wf(reparent_spec(s, n, np)),
{
    lemma_first_tracked(s, n);
    lemma_first_tracked(s, np);
    let i = index_of(s, n);
    let j = index_of(s, np);
    let s1 = match s[i].parent {
        Some(op) => if is_tracked(s, op) {
            s.update(index_of(s, op), without_child(s[index_of(s, op)], n))
        } else {
            s
        },
        None => s,
    };
    let s2 = s1.update(i, BranchView { parent: Some(np), ..s1[i] });
    let t = s2.update(j, with_child_added(s2[j], n));
    assert(t == reparent_spec(s, n, np));
    assert(forall|a: int| 0 <= a < s.len() ==> #[trigger] t[a].name == s[a].name);
    assert(forall|a: int| 0 <= a < s.len() && a != i ==> #[trigger] t[a].parent == s[a].parent);
    assert(t[i].parent == Some(np));
    assert(unique_names(t));
    if s[i].parent is Some {
        let op = s[i].parent->0;
        assert(is_tracked(s, op));
        lemma_first_tracked(s, op);
    }
    assert(children_linked(t)) by {
        assert forall|a: int, k: int|
            0 <= a < t.len() && 0 <= k < t[a].children.len() implies {
            let c = #[trigger] t[a].children[k];
            is_tracked(t, c) && branch_of(t, c).parent == Some(t[a].name)
        } by {
            let c = t[a].children[k];
            if a == j && k == s2[j].children.len() {
                // the pushed back-reference for the moved edge
                assert(c == n);
                lemma_first_index_extend(s, t, n);
                lemma_index_of_unique(t, i);
                assert(branch_of(t, c) == t[i]);
                assert(t[i].parent == Some(np));
                assert(t[a].name == np);
            } else {
                // an edge that was already there and survives
                assert(c != n && s[a].children.contains(c)) by {
                    let cs1 = s1[a].children;
                    if s[i].parent is Some && is_tracked(s, s[i].parent->0) && a == index_of(
                        s,
                        s[i].parent->0,
                    ) {
                        lemma_strip_children_contains(s[a].children, n);
                        assert(strip_children(s[a].children, n)[k] == c);
                        assert(strip_children(s[a].children, n).contains(c));
                        assert(s[a].children.contains(c) && c != n);
                    } else {
                        assert(cs1 == s[a].children);
                        assert(s[a].children[k] == c);
                        assert(s[a].children.contains(c));
                        if c == n {
                            let w = choose|w: int|
                                0 <= w < s[a].children.len() && s[a].children[w] == c;
                            assert(branch_of(s, n).parent == Some(s[a].name));
                            lemma_index_of_unique(s, i);
                            assert(s[i].parent == Some(s[a].name));
                            lemma_index_of_unique(s, a);
                            assert(index_of(s, s[a].name) == a);
                            assert(false);
                        }
                    }
                };
                let w = choose|w: int| 0 <= w < s[a].children.len() && s[a].children[w] == c;
                assert(is_tracked(s, c) && branch_of(s, c).parent == Some(s[a].name));
                lemma_first_index_extend(s, t, c);
                let m = index_of(s, c);
                lemma_first_tracked(s, c);
                assert(s[m].name == c);
                if m == i {
                    assert(c == n);
                }
                assert(branch_of(t, c) == t[m]);
                assert(t[m].parent == s[m].parent);
            }
        }
    }
    assert(parents_linked(t)) by {
        assert forall|a: int| 0 <= a < t.len() implies match #[trigger] t[a].parent {
            Some(p) => is_tracked(t, p) && branch_of(t, p).children.contains(t[a].name),
            None => true,
        } by {
            if a == i {
                lemma_first_index_extend(s, t, np);
                assert(branch_of(t, np) == t[j]);
                assert(t[j].children[s2[j].children.len() as int] == n);
                assert(t[j].children.contains(n));
                assert(t[a].name == n) by {
                    lemma_index_of_unique(s, i);
                }
            } else {
                match s[a].parent {
                    Some(p) => {
                        assert(is_tracked(s, p) && branch_of(s, p).children.contains(s[a].name));
                        lemma_first_index_extend(s, t, p);
                        let m = index_of(s, p);
                        assert(branch_of(t, p) == t[m]);
                        assert(s[a].name != n) by {
                            lemma_index_of_unique(s, a);
                            lemma_index_of_unique(s, i);
                        }
                        let w = choose|w: int|
                            0 <= w < branch_of(s, p).children.len() && branch_of(s, p).children[w]
                                == s[a].name;
                        assert(s[m].children[w] == s[a].name);
                        let cs1 = s1[m].children;
                        assert(cs1.contains(s[a].name)) by {
                            if s[i].parent is Some && is_tracked(s, s[i].parent->0) && m
                                == index_of(s, s[i].parent->0) {
                                lemma_strip_children_contains(s[m].children, n);
                                assert(s[m].children.contains(s[a].name));
                            } else {
                                assert(cs1 == s[m].children);
                                assert(cs1[w] == s[a].name);
                            }
                        };
                        assert(t[m].children.contains(s[a].name)) by {
                            let v = choose|v: int| 0 <= v < cs1.len() && cs1[v] == s[a].name;
                            if m == j {
                                assert(t[j].children == cs1.push(n));
                                assert(t[j].children[v] == s[a].name);
                            } else {
                                assert(t[m].children == cs1);
                            }
                        };
                        assert(t[a].name == s[a].name);
                    },
                    None => {
                        assert(t[a].parent is None);
                    },
                }
            }
        }
    }
}

/// A freshly tracked root branch.
pub open spec fn root_branch(name: Seq<char>) -> BranchView {
    BranchView { name, parent: None, children: Seq::empty() }
}

/// A freshly tracked child branch.
pub open spec fn child_branch(name: Seq<char>, parent: Seq<char>) -> BranchView {
    BranchView { name, parent: Some(parent), children: Seq::empty() }
}

/// `b` with one more child name appended.
pub open spec fn with_child_added(b: BranchView, c: Seq<char>) -> BranchView {
    BranchView { children: b.children.push(c), ..b }
}

/// `cs` with every occurrence of `n` removed, order kept.
pub open spec fn strip_children(cs: Seq<Seq<char>>, n: Seq<char>) -> Seq<Seq<char>>
    decreases cs.len(),
{
    if cs.len() == 0 {
        Seq::empty()
    } else {
        let rest = strip_children(cs.drop_last(), n);
        if cs.last() == n {
            rest
        } else {
            rest.push(cs.last())
        }
    }
}

/// `b` with every reference to `n` stripped from its children.
pub open spec fn without_child(b: BranchView, n: Seq<char>) -> BranchView {
    BranchView { children: strip_children(b.children, n), ..b }
}

/// The forest after untracking `n`: the branch itself is gone and no
/// other branch's children mention it any more.
pub open spec fn remove_spec(s: Seq<BranchView>, n: Seq<char>) -> Seq<BranchView>
    decreases s.len(),
{
    if s.len() == 0 {
        Seq::empty()
    } else {
        let rest = remove_spec(s.drop_last(), n);
        if s.last().name == n {
            rest
        } else {
            rest.push(without_child(s.last(), n))
        }
    }
}

/// The tracked names that have no entry in `keep`, in forest order:
/// what a prune against the VCS branch list `keep` removes.
pub open spec fn removed_names(s: Seq<BranchView>, keep: Seq<Seq<char>>) -> Seq<Seq<char>>
    decreases s.len(),
{
    if s.len() == 0 {
        Seq::empty()
    } else {
        let rest = removed_names(s.drop_last(), keep);
        if keep.contains(s.last().name) {
            rest
        } else {
            rest.push(s.last().name)
        }
    }
}

/// `cs` with every entry that occurs in `removed` dropped.
pub open spec fn strip_all(cs: Seq<Seq<char>>, removed: Seq<Seq<char>>) -> Seq<Seq<char>>
    decreases cs.len(),
{
    if cs.len() == 0 {
        Seq::empty()
    } else {
        let rest = strip_all(cs.drop_last(), removed);
        if removed.contains(cs.last()) {
            rest
        } else {
            rest.push(cs.last())
        }
    }
}

/// `b` with every reference to a removed name cleared: a parent
/// pointing at one becomes `None`, children entries are dropped.
pub open spec fn prune_fix(b: BranchView, removed: Seq<Seq<char>>) -> BranchView {
    BranchView {
        name: b.name,
        parent: match b.parent {
            Some(p) => if removed.contains(p) {
                None
            } else {
                Some(p)
            },
            None => None,
        },
        children: strip_all(b.children, removed),
    }
}

/// The forest after pruning: branches whose name is in `removed` are
/// gone, and no surviving branch references one of them.
pub open spec fn prune_spec(s: Seq<BranchView>, removed: Seq<Seq<char>>) -> Seq<BranchView>
    decreases s.len(),
{
    if s.len() == 0 {
        Seq::empty()
    } else {
        let rest = prune_spec(s.drop_last(), removed);
        if removed.contains(s.last().name) {
            rest
        } else {
            rest.push(prune_fix(s.last(), removed))
        }
    }
}

/// The forest after re-parenting `n` onto the tracked `np`: `n`
/// leaves its old parent's children, its `parent` field moves to
/// `np`, and `n` joins the children of `np` — one atomic edge move.
pub open spec fn reparent_spec(s: Seq<BranchView>, n: Seq<char>, np: Seq<char>) -> Seq<
    BranchView,
> {
    let i = index_of(s, n);
    let s1 = match s[i].parent {
        Some(op) => if is_tracked(s, op) {
            let k = index_of(s, op);
            s.update(k, without_child(s[k], n))
        } else {
            s
        },
        None => s,
    };
    let s2 = s1.update(i, BranchView { parent: Some(np), ..s1[i] });
    let j = index_of(s, np);
    s2.update(j, with_child_added(s2[j], n))
}

/// The forest after tracking `name` under the tracked `parent`:
/// `name` is appended to the parent's children, and a new branch
/// record with `parent` set closes the back-reference.
pub open spec fn insert_child_spec(s: Seq<BranchView>, name: Seq<char>, parent: Seq<char>) -> Seq<
    BranchView,
> {
    let j = index_of(s, parent);
    s.update(j, with_child_added(s[j], name)).push(child_branch(name, parent))
}

/// A copy of `cs` with every occurrence of `name` removed.
fn strip_name_list(cs: &Vec<String>, name: &str) -> (r: Vec<String>)
    ensures
        r.deep_view() == strip_children(cs.deep_view(), name@),
{
    let mut out: Vec<String> = Vec::new();
    let n = cs.len();
    for i in 0..n
        invariant
            n == cs.len(),
            out.deep_view() == strip_children(cs.deep_view().take(i as int), name@),
    {
        let ghost pre = cs.deep_view().take(i as int);
        let ghost cur = cs.deep_view().take(i + 1);
        proof {
            assert(cur.drop_last() =~= pre);
            assert(cur.last() == cs.deep_view()[i as int]);
        }
        if !crate::util::str_eq(cs[i].as_str(), name) {
            out.push(cs[i].clone());
            proof {
                assert(out.deep_view() =~= strip_children(pre, name@).push(cs.deep_view()[i as int]));
            }
        }
    }
    proof {
        assert(cs.deep_view().take(n as int) =~= cs.deep_view());
    }
    out
}

/// A copy of `branches` without the branch named `name`, the name
/// also stripped from every children list.
#[verifier::rlimit(60)]
fn remove_rebuild(branches: &Vec<Branch>, name: &str) -> (out: Vec<Branch>)
    ensures
        views_of(out@) == remove_spec(views_of(branches@), name@),
{
    let ghost s = views_of(branches@);
    let mut out: Vec<Branch> = Vec::new();
    let n = branches.len();
    for k in 0..n
        invariant
            n == branches@.len(),
            s == views_of(branches@),
            views_of(out@) == remove_spec(s.take(k as int), name@),
    {
        let ghost pre = s.take(k as int);
        let ghost cur = s.take(k + 1);
        proof {
            assert(cur.drop_last() =~= pre);
            assert(cur.last() == s[k as int]);
        }
        if !crate::util::str_eq(branches[k].name.as_str(), name) {
            let b = &branches[k];
            let np = match &b.parent {
                Some(p) => Some(p.clone()),
                None => None,
            };
            let nb = Branch {
                name: b.name.clone(),
                parent: np,
                children: strip_name_list(&b.children, name),
            };
            proof {
                assert(nb@.name == s[k as int].name);
                assert(nb@.parent == s[k as int].parent);
                assert(nb@.children == without_child(s[k as int], name@).children);
                assert(nb@ == without_child(s[k as int], name@));
            }
            out.push(nb);
            proof {
                assert(views_of(out@) =~= remove_spec(pre, name@).push(
                    without_child(s[k as int], name@),
                ));
            }
        }
    }
    proof {
        assert(s.take(n as int) =~= s);
    }
    out
}

/// Strip `name` from the children of the branch at `k`.
fn strip_child_at(branches: &mut Vec<Branch>, k: usize, name: &str)
    requires
        k < old(branches)@.len(),
    ensures
        views_of(final(branches)@) == views_of(old(branches)@).update(
            k as int,
            without_child(views_of(old(branches)@)[k as int], name@),
        ),
{
    let ghost s = views_of(branches@);
    let stripped = strip_name_list(&branches[k].children, name);
    branches[k].children = stripped;
    proof {
        let t = views_of(branches@);
        assert(t[k as int].name == s[k as int].name);
        assert(t[k as int].parent == s[k as int].parent);
        assert(t[k as int].children == without_child(s[k as int], name@).children);
        assert(t[k as int] == without_child(s[k as int], name@));
        assert(t =~= s.update(k as int, without_child(s[k as int], name@)));
    }
}

/// Set the parent field of the branch at `i` to `np`.
fn set_parent_at(branches: &mut Vec<Branch>, i: usize, np: &str)
    requires
        i < old(branches)@.len(),
    ensures
        views_of(final(branches)@) == views_of(old(branches)@).update(
            i as int,
            (BranchView { parent: Some(np@), ..views_of(old(branches)@)[i as int] }),
        ),
{
    let ghost s = views_of(branches@);
    branches[i].parent = Some(np.to_owned());
    proof {
        let t = views_of(branches@);
        assert(t[i as int].name == s[i as int].name);
        assert(t[i as int].children == s[i as int].children);
        assert(t[i as int].parent == Some(np@));
        assert(t[i as int] == (BranchView { parent: Some(np@), ..s[i as int] }));
        assert(t =~= s.update(i as int, BranchView { parent: Some(np@), ..s[i as int] }));
    }
}

/// Append `name` to the children of the branch at `j`.
fn push_child_at(branches: &mut Vec<Branch>, j: usize, name: &str)
    requires
        j < old(branches)@.len(),
    ensures
        views_of(final(branches)@) == views_of(old(branches)@).update(
            j as int,
            with_child_added(views_of(old(branches)@)[j as int], name@),
        ),
{
    let ghost s = views_of(branches@);
    branches[j].children.push(name.to_owned());
    proof {
        let t = views_of(branches@);
        assert(t[j as int].name == s[j as int].name);
        assert(t[j as int].parent == s[j as int].parent);
        assert(t[j as int].children =~= s[j as int].children.push(name@));
        assert(t[j as int] == with_child_added(s[j as int], name@));
        assert(t =~= s.update(j as int, with_child_added(s[j as int], name@)));
    }
}

/// A copy of `cs` with every entry that occurs in `removed` dropped.
fn strip_all_list(cs: &Vec<String>, removed: &Vec<String>) -> (r: Vec<String>)
    ensures
        r.deep_view() == strip_all(cs.deep_view(), removed.deep_view()),
{
    let mut out: Vec<String> = Vec::new();
    let n = cs.len();
    for i in 0..n
        invariant
            n == cs.len(),
            out.deep_view() == strip_all(cs.deep_view().take(i as int), removed.deep_view()),
    {
        let ghost pre = cs.deep_view().take(i as int);
        let ghost cur = cs.deep_view().take(i + 1);
        proof {
            assert(cur.drop_last() =~= pre);
            assert(cur.last() == cs.deep_view()[i as int]);
        }
        if !crate::util::name_in_list(removed, cs[i].as_str()) {
            out.push(cs[i].clone());
            proof {
                assert(out.deep_view() =~= strip_all(pre, removed.deep_view()).push(
                    cs.deep_view()[i as int],
                ));
            }
        }
    }
    proof {
        assert(cs.deep_view().take(n as int) =~= cs.deep_view());
    }
    out
}

/// A copy of `branches` without those named in `removed`, every
/// reference to a removed name cleared from the survivors.
#[verifier::rlimit(60)]
pub(crate) fn prune_rebuild(branches: &Vec<Branch>, removed: &Vec<String>) -> (out: Vec<Branch>)
    ensures
        views_of(out@) == prune_spec(views_of(branches@), removed.deep_view()),
{
    let ghost s = views_of(branches@);
    let mut out: Vec<Branch> = Vec::new();
    let n = branches.len();
    for k in 0..n
        invariant
            n == branches@.len(),
            s == views_of(branches@),
            views_of(out@) == prune_spec(s.take(k as int), removed.deep_view()),
    {
        let ghost pre = s.take(k as int);
        let ghost cur = s.take(k + 1);
        proof {
            assert(cur.drop_last() =~= pre);
            assert(cur.last() == s[k as int]);
        }
        if !crate::util::name_in_list(removed, branches[k].name.as_str()) {
            let b = &branches[k];
            let np = match &b.parent {
                Some(p) => if crate::util::name_in_list(removed, p.as_str()) {
                    None
                } else {
                    Some(p.clone())
                },
                None => None,
            };
            let nb = Branch {
                name: b.name.clone(),
                parent: np,
                children: strip_all_list(&b.children, removed),
            };
            proof {
                assert(nb@.name == s[k as int].name);
                assert(nb@.parent == prune_fix(s[k as int], removed.deep_view()).parent);
                assert(nb@.children == prune_fix(s[k as int], removed.deep_view()).children);
                assert(nb@ == prune_fix(s[k as int], removed.deep_view()));
            }
            out.push(nb);
            proof {
                assert(views_of(out@) =~= prune_spec(pre, removed.deep_view()).push(
                    prune_fix(s[k as int], removed.deep_view()),
                ));
            }
        }
    }
    proof {
        assert(s.take(n as int) =~= s);
    }
    out
}

impl State {
    /// An empty forest: what an absent or empty state file denotes.
    pub fn new() -> (r: State)
        ensures
            r@ =~= Seq::<BranchView>::empty(),
            wf(r@),
    {
        State { branches: Vec::new() }
    }

    /// Index of the branch named `name`, if tracked.
    pub fn find_index(&self, name: &str) -> (r: Option<usize>)
        ensures
            match r {
                Some(i) => {
                    &&& i < self@.len()
                    &&& self@[i as int].name == name@
                    &&& is_tracked(self@, name@)
                    &&& index_of(self@, name@) == i
                },
                None => !is_tracked(self@, name@),
            },
    {
        let n = self.branches.len();
        for i in 0..n
            invariant
                n == self@.len(),
                forall|j: int| 0 <= j < i ==> #[trigger] self@[j].name != name@,
        {
            if crate::util::str_eq(self.branches[i].name.as_str(), name) {
                proof {
                    assert(self@[i as int].name == name@);
                    assert(is_tracked(self@, name@));
                    lemma_first_tracked(self@, name@);
                    let c = index_of(self@, name@);
                    if c < i {
                        assert(self@[c].name != name@);
                    }
                    if c > i {
                        assert(self@[i as int].name != name@);
                    }
                }
                return Some(i);
            }
        }
        None
    }

    /// The branch named `name`, if tracked.
    pub fn find(&self, name: &str) -> (r: Option<&Branch>)
        ensures
            match r {
                Some(b) => is_tracked(self@, name@) && b@ == branch_of(self@, name@),
                None => !is_tracked(self@, name@),
            },
    {
        match self.find_index(name) {
            Some(i) => Some(&self.branches[i]),
            None => None,
        }
    }

    /// Track `name`. Fails with `AlreadyTracked` if it is already
    /// tracked and with `UnknownParent` if the given parent is not;
    /// otherwise appends a new branch record and, when a parent is
    /// given, links both sides of the new edge at once.
    #[verifier::rlimit(60)]
    pub fn insert(&mut self, name: &str, parent: Option<&str>) -> (r: Result<(), Error>)
        ensures
            match r {
                Ok(_) => {
                    &&& !is_tracked(old(self)@, name@)
                    &&& match parent {
                        Some(p) => is_tracked(old(self)@, p@) && final(self)@ =~= insert_child_spec(
                            old(self)@,
                            name@,
                            p@,
                        ),
                        None => final(self)@ =~= old(self)@.push(root_branch(name@)),
                    }
                },
                Err(Error::AlreadyTracked) => is_tracked(old(self)@, name@) && final(self)@ == old(
                    self,
                )@,
                Err(Error::UnknownParent) => {
                    &&& !is_tracked(old(self)@, name@)
                    &&& parent matches Some(p) && !is_tracked(old(self)@, p@)
                    &&& final(self)@ == old(self)@
                },
                Err(_) => false,
            },
    {
        if self.find_index(name).is_some() {
            return Err(Error::AlreadyTracked);
        }
        match parent {
            None => {
                self.branches.push(
                    Branch { name: name.to_owned(), parent: None, children: Vec::new() },
                );
                proof {
                    let s_old = old(self)@;
                    let n = s_old.len() as int;
                    assert(self@[n].children =~= Seq::<Seq<char>>::empty());
                    assert(self@[n] == root_branch(name@));
                    assert(self@ =~= s_old.push(root_branch(name@)));
                }
                Ok(())
            },
            Some(p) => {
                match self.find_index(p) {
                    None => Err(Error::UnknownParent),
                    Some(j) => {
                        self.branches[j].children.push(name.to_owned());
                        let ghost s_mid = self@;
                        proof {
                            let s_old = old(self)@;
                            assert(s_mid[j as int].children =~= s_old[j as int].children.push(
                                name@,
                            ));
                            assert(s_mid[j as int] == with_child_added(s_old[j as int], name@));
                            assert(s_mid =~= s_old.update(
                                j as int,
                                with_child_added(s_old[j as int], name@),
                            ));
                        }
                        self.branches.push(
                            Branch {
                                name: name.to_owned(),
                                parent: Some(p.to_owned()),
                                children: Vec::new(),
                            },
                        );
                        proof {
                            let n = s_mid.len() as int;
                            assert(self@[n].children =~= Seq::<Seq<char>>::empty());
                            assert(self@[n] == child_branch(name@, p@));
                            assert(self@ =~= s_mid.push(child_branch(name@, p@)));
                        }
                        Ok(())
                    },
                }
            },
        }
    }

    /// The tracked branch matching the VCS's current branch name, if
    /// the current branch is tracked at all.
    pub fn get_current_branch(&self, current_branch_name: &str) -> (r: Option<&Branch>)
        ensures
            match r {
                Some(b) => is_tracked(self@, current_branch_name@) && b@ == branch_of(
                    self@,
                    current_branch_name@,
                ),
                None => !is_tracked(self@, current_branch_name@),
            },
    {
        self.find(current_branch_name)
    }

    /// Mutable access to the tracked branch matching the VCS's
    /// current branch name.
    pub fn get_current_branch_mut(&mut self, current_branch_name: &str) -> (r: Option<&mut Branch>)
        ensures
            match r {
                Some(b) => {
                    &&& is_tracked(old(self)@, current_branch_name@)
                    &&& *b == old(self).branches@[index_of(old(self)@, current_branch_name@)]
                    &&& final(self).branches@ == old(self).branches@.update(
                        index_of(old(self)@, current_branch_name@),
                        *final(b),
                    )
                },
                None => !is_tracked(old(self)@, current_branch_name@) && final(self)@ == old(
                    self,
                )@,
            },
    {
        match self.find_index(current_branch_name) {
            Some(i) => Some(&mut self.branches[i]),
            None => None,
        }
    }

    /// Untrack `name`. Fails with `NotTracked` if it is not tracked,
    /// and with `HasChildren` (leaving the forest unchanged) while it
    /// still has children; otherwise removes the branch and strips
    /// its name from every other branch's children.
    #[verifier::rlimit(60)]
    pub fn remove(&mut self, name: &str) -> (r: Result<(), Error>)
        ensures
            match r {
                Ok(_) => {
                    &&& is_tracked(old(self)@, name@)
                    &&& branch_of(old(self)@, name@).children.len() == 0
                    &&& final(self)@ == remove_spec(old(self)@, name@)
                },
                Err(Error::NotTracked) => !is_tracked(old(self)@, name@) && final(self)@ == old(
                    self,
                )@,
                Err(Error::HasChildren) => {
                    &&& is_tracked(old(self)@, name@)
                    &&& branch_of(old(self)@, name@).children.len() > 0
                    &&& final(self)@ == old(self)@
                },
                Err(_) => false,
            },
            is_tracked(old(self)@, name@) && branch_of(old(self)@, name@).children.len() > 0 ==> r
                == Err::<(), Error>(Error::HasChildren),
    {
        let i = match self.find_index(name) {
            None => {
                return Err(Error::NotTracked);
            },
            Some(i) => i,
        };
        proof {
            assert(branch_of(self@, name@) == self@[i as int]);
            assert(self@[i as int].children.len() == self.branches@[i as int].children@.len());
        }
        if self.branches[i].children.len() > 0 {
            return Err(Error::HasChildren);
        }
        let out = remove_rebuild(&self.branches, name);
        self.branches = out;
        Ok(())
    }

    /// Move `name` under `new_parent`, updating both sides of the
    /// old and of the new edge in one operation. Fails with
    /// `UnknownBranch` if `name` is not tracked and `UnknownParent`
    /// if `new_parent` is not, leaving the forest unchanged.
    #[verifier::rlimit(100)]
    pub fn reparent(&mut self, name: &str, new_parent: &str) -> (r: Result<(), Error>)
        ensures
            match r {
                Ok(_) => {
                    &&& is_tracked(old(self)@, name@)
                    &&& is_tracked(old(self)@, new_parent@)
                    &&& final(self)@ == reparent_spec(old(self)@, name@, new_parent@)
                },
                Err(Error::UnknownBranch) => !is_tracked(old(self)@, name@) && final(self)@ == old(
                    self,
                )@,
                Err(Error::UnknownParent) => {
                    &&& is_tracked(old(self)@, name@)
                    &&& !is_tracked(old(self)@, new_parent@)
                    &&& final(self)@ == old(self)@
                },
                Err(_) => false,
            },
    {
        let ghost s = self@;
        let i = match self.find_index(name) {
            None => {
                return Err(Error::UnknownBranch);
            },
            Some(i) => i,
        };
        let j = match self.find_index(new_parent) {
            None => {
                return Err(Error::UnknownParent);
            },
            Some(j) => j,
        };
        let op = match &self.branches[i].parent {
            Some(p) => Some(p.clone()),
            None => None,
        };
        if let Some(opn) = &op {
            proof {
                assert(s[i as int].parent == Some(opn@));
            }
            if let Some(k) = self.find_index(opn.as_str()) {
                strip_child_at(&mut self.branches, k, name);
            }
        }
        let ghost s1 = self@;
        proof {
            assert(s1 == match s[i as int].parent {
                Some(op) => if is_tracked(s, op) {
                    s.update(index_of(s, op), without_child(s[index_of(s, op)], name@))
                } else {
                    s
                },
                None => s,
            });
        }
        set_parent_at(&mut self.branches, i, new_parent);
        proof {
            assert(self@ == s1.update(
                i as int,
                BranchView { parent: Some(new_parent@), ..s1[i as int] },
            ));
        }
        let ghost s2 = self@;
        push_child_at(&mut self.branches, j, name);
        proof {
            assert(self@ == s2.update(j as int, with_child_added(s2[j as int], name@)));
            assert(self@ == reparent_spec(s, name@, new_parent@));
        }
        Ok(())
    }
}

} // verus!
