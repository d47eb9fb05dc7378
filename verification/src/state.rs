//! The persisted state format: one JSON document
//! `{"branches":[{"name":..,"parent":..,"children":[..]},..]}`.
//! The serializer emits exactly that shape; the parser accepts it
//! and nothing else. The round trip is proved in both directions:
//! anything the parser accepts serializes back to the very text it
//! read, and any serialized forest is accepted — and, a document
//! denoting at most one forest, comes back as the forest that was
//! written. Escape sequences are not supported: names are kept to
//! plain characters, which VCS branch names are.

use vstd::prelude::*;

use crate::model::Branch;
use crate::model::BranchView;
use crate::model::Error;
use crate::model::State;
use crate::model::views_of;

verus! {

/// Relies on std's String::push: appends exactly one character.
pub assume_specification[ String::push ](s: &mut String, ch: char)
    ensures
        final(s)@ == old(s)@.push(ch),
;

/// A character that may stand in a JSON string unescaped.
pub open spec fn plain_char(c: char) -> bool {
    c != '"' && c != '\\' && (c as u32) >= 32
}

/// A name made only of plain characters.
pub open spec fn plain_name(s: Seq<char>) -> bool {
    forall|i: int| 0 <= i < s.len() ==> plain_char(#[trigger] s[i])
}

/// Every name of the list is plain.
pub open spec fn names_plain(l: Seq<Seq<char>>) -> bool {
    forall|k: int| 0 <= k < l.len() ==> plain_name(#[trigger] l[k])
}

/// Every name a branch record holds is plain.
pub open spec fn branch_plain(b: BranchView) -> bool {
    &&& plain_name(b.name)
    &&& match b.parent {
        Some(p) => plain_name(p),
        None => true,
    }
    &&& names_plain(b.children)
}

/// Every name the forest holds is plain.
pub open spec fn state_plain(s: Seq<BranchView>) -> bool {
    forall|i: int| 0 <= i < s.len() ==> branch_plain(#[trigger] s[i])
}

/// A quoted JSON string, no escapes.
pub open spec fn ser_str(s: Seq<char>) -> Seq<char> {
    seq!['"'] + s + seq!['"']
}

/// A quoted string or the literal `null`.
pub open spec fn ser_opt_str(p: Option<Seq<char>>) -> Seq<char> {
    match p {
        Some(x) => ser_str(x),
        None => seq!['n', 'u', 'l', 'l'],
    }
}

/// Comma-joined quoted strings.
pub open spec fn ser_str_list(l: Seq<Seq<char>>) -> Seq<char>
    decreases l.len(),
{
    if l.len() == 0 {
        Seq::empty()
    } else {
        ser_str_list(l.drop_last()) + (if l.len() == 1 {
            Seq::empty()
        } else {
            seq![',']
        }) + ser_str(l.last())
    }
}

/// One branch record as a JSON object.
pub open spec fn ser_branch(b: BranchView) -> Seq<char> {
    "{\"name\":"@ + ser_str(b.name) + ",\"parent\":"@ + ser_opt_str(b.parent) + ",\"children\":["@
        + ser_str_list(b.children) + "]}"@
}

/// Comma-joined branch records.
pub open spec fn ser_branches(s: Seq<BranchView>) -> Seq<char>
    decreases s.len(),
{
    if s.len() == 0 {
        Seq::empty()
    } else {
        ser_branches(s.drop_last()) + (if s.len() == 1 {
            Seq::empty()
        } else {
            seq![',']
        }) + ser_branch(s.last())
    }
}

/// The whole persisted document.
pub open spec fn ser_state(s: Seq<BranchView>) -> Seq<char> {
    "{\"branches\":["@ + ser_branches(s) + "]}"@
}

/// Whether every name in the forest can be persisted unescaped.
pub fn state_plain_exec(state: &State) -> (r: bool)
    ensures
        r == state_plain(state@),
{
    let n = state.branches.len();
    for i in 0..n
        invariant
            n == state@.len(),
            forall|j: int| 0 <= j < i ==> branch_plain(#[trigger] state@[j]),
    {
        let b = &state.branches[i];
        if !str_plain(b.name.as_str()) {
            proof {
                assert(!branch_plain(state@[i as int]));
            }
            return false;
        }
        match &b.parent {
            Some(p) => if !str_plain(p.as_str()) {
                proof {
                    assert(state@[i as int].parent == Some(p@));
                    assert(!branch_plain(state@[i as int]));
                }
                return false;
            },
            None => {},
        }
        let cn = b.children.len();
        for k in 0..cn
            invariant
                cn == b.children@.len(),
                n == state@.len(),
                i < n,
                b == &state.branches[i as int],
                forall|x: int| 0 <= x < k ==> plain_name(#[trigger] b.children.deep_view()[x]),
        {
            if !str_plain(b.children[k].as_str()) {
                proof {
                    assert(b.children.deep_view()[k as int] == b.children@[k as int]@);
                    assert(state@[i as int].children == b.children.deep_view());
                    assert(!plain_name(state@[i as int].children[k as int]));
                    assert(!names_plain(state@[i as int].children));
                    assert(!branch_plain(state@[i as int]));
                }
                return false;
            }
        }
        proof {
            assert(branch_plain(state@[i as int]));
        }
    }
    true
}

/// Whether every character of `s` is plain.
fn str_plain(s: &str) -> (r: bool)
    ensures
        r == plain_name(s@),
{
    let n = s.unicode_len();
    for i in 0..n
        invariant
            n == s@.len(),
            forall|j: int| 0 <= j < i ==> plain_char(#[trigger] s@[j]),
    {
        let c = s.get_char(i);
        if c == '"' || c == '\\' || (c as u32) < 32 {
            return false;
        }
    }
    true
}

/// Append a name as a quoted JSON string.
fn append_quoted(out: &mut String, name: &str)
    ensures
        final(out)@ == old(out)@ + ser_str(name@),
{
    out.push('"');
    out.append(name);
    out.push('"');
    proof {
        assert(out@ =~= old(out)@ + ser_str(name@));
    }
}

/// Serialize one branch record.
fn serialize_branch(b: &Branch) -> (r: String)
    ensures
        r@ == ser_branch(b@),
{
    let mut out = String::new();
    out.append("{\"name\":");
    append_quoted(&mut out, b.name.as_str());
    out.append(",\"parent\":");
    match &b.parent {
        None => {
            out.append("null");
            proof {
                reveal_strlit("null");
                assert("null"@ =~= seq!['n', 'u', 'l', 'l']);
            }
        },
        Some(p) => {
            append_quoted(&mut out, p.as_str());
        },
    }
    out.append(",\"children\":[");
    let ghost mid = out@;
    let cn = b.children.len();
    for k in 0..cn
        invariant
            cn == b.children@.len(),
            out@ == mid + ser_str_list(b.children.deep_view().take(k as int)),
    {
        let ghost pre = b.children.deep_view().take(k as int);
        let ghost cur = b.children.deep_view().take(k + 1);
        proof {
            assert(cur.drop_last() =~= pre);
            assert(cur.last() == b.children.deep_view()[k as int]);
        }
        if k > 0 {
            out.append(",");
            proof {
                reveal_strlit(",");
                assert(","@ =~= seq![',']);
            }
        }
        append_quoted(&mut out, b.children[k].as_str());
        proof {
            assert(out@ =~= mid + ser_str_list(cur));
        }
    }
    out.append("]}");
    proof {
        assert(b.children.deep_view().take(cn as int) =~= b.children.deep_view());
        assert(out@ =~= ser_branch(b@));
    }
    out
}

/// Serialize the forest to the persisted document.
pub fn serialize_state(state: &State) -> (r: String)
    requires
        state_plain(state@),
    ensures
        r@ == ser_state(state@),
{
    let mut out = String::new();
    out.append("{\"branches\":[");
    let ghost head = out@;
    let n = state.branches.len();
    for i in 0..n
        invariant
            n == state@.len(),
            head == "{\"branches\":["@,
            out@ == head + ser_branches(state@.take(i as int)),
    {
        let ghost pre = state@.take(i as int);
        let ghost cur = state@.take(i + 1);
        proof {
            assert(cur.drop_last() =~= pre);
            assert(cur.last() == state@[i as int]);
        }
        if i > 0 {
            out.append(",");
            proof {
                reveal_strlit(",");
                assert(","@ =~= seq![',']);
            }
        }
        let bs = serialize_branch(&state.branches[i]);
        out.append(bs.as_str());
        proof {
            assert(out@ =~= head + ser_branches(cur));
        }
    }
    out.append("]}");
    proof {
        assert(state@.take(n as int) =~= state@);
        assert(out@ =~= ser_state(state@));
    }
    out
}

/// Dropping a common prefix of a concatenation equality.
proof fn lemma_strip_prefix(p: Seq<char>, a: Seq<char>, b: Seq<char>)
    requires
        p + a == p + b,
    ensures
        a == b,
{
    assert((p + a).len() == p.len() + a.len());
    assert((p + b).len() == p.len() + b.len());
    assert(a.len() == b.len());
    assert forall|i: int| 0 <= i < a.len() implies a[i] == b[i] by {
        assert((p + a)[p.len() + i] == a[i]);
        assert((p + b)[p.len() + i] == b[i]);
    }
    assert(a =~= b);
}

/// A quoted plain string is delimited by its quotes: equal texts
/// mean equal strings and equal remainders.
proof fn lemma_quoted_unambiguous(s1: Seq<char>, r1: Seq<char>, s2: Seq<char>, r2: Seq<char>)
    requires
        plain_name(s1),
        plain_name(s2),
        ser_str(s1) + r1 == ser_str(s2) + r2,
    ensures
        s1 == s2,
        r1 == r2,
{
    let t = ser_str(s1) + r1;
    if s1.len() < s2.len() {
        assert(t[1 + s1.len() as int] == '"') by {
            assert(ser_str(s1)[1 + s1.len() as int] == '"');
        }
        assert((ser_str(s2) + r2)[1 + s1.len() as int] == s2[s1.len() as int]) by {
            assert(ser_str(s2)[1 + s1.len() as int] == s2[s1.len() as int]);
        }
        assert(plain_char(s2[s1.len() as int]));
        assert(false);
    }
    if s2.len() < s1.len() {
        assert((ser_str(s2) + r2)[1 + s2.len() as int] == '"') by {
            assert(ser_str(s2)[1 + s2.len() as int] == '"');
        }
        assert(t[1 + s2.len() as int] == s1[s2.len() as int]) by {
            assert(ser_str(s1)[1 + s2.len() as int] == s1[s2.len() as int]);
        }
        assert(plain_char(s1[s2.len() as int]));
        assert(false);
    }
    assert forall|i: int| 0 <= i < s1.len() implies s1[i] == s2[i] by {
        assert(t[1 + i] == s1[i]) by {
            assert(ser_str(s1)[1 + i] == s1[i]);
        }
        assert((ser_str(s2) + r2)[1 + i] == s2[i]) by {
            assert(ser_str(s2)[1 + i] == s2[i]);
        }
    }
    assert(s1 =~= s2);
    lemma_strip_prefix(ser_str(s1), r1, r2);
}

/// An optional string is told apart by its first character.
proof fn lemma_opt_unambiguous(
    p1: Option<Seq<char>>,
    r1: Seq<char>,
    p2: Option<Seq<char>>,
    r2: Seq<char>,
)
    requires
        match p1 {
            Some(x) => plain_name(x),
            None => true,
        },
        match p2 {
            Some(x) => plain_name(x),
            None => true,
        },
        ser_opt_str(p1) + r1 == ser_opt_str(p2) + r2,
    ensures
        p1 == p2,
        r1 == r2,
{
    match (p1, p2) {
        (None, None) => {
            lemma_strip_prefix(seq!['n', 'u', 'l', 'l'], r1, r2);
        },
        (Some(x1), Some(x2)) => {
            lemma_quoted_unambiguous(x1, r1, x2, r2);
        },
        (Some(x1), None) => {
            assert((ser_str(x1) + r1)[0] == '"') by {
                assert(ser_str(x1)[0] == '"');
            }
            assert((ser_opt_str(p2) + r2)[0] == 'n');
            assert(false);
        },
        (None, Some(x2)) => {
            assert((ser_str(x2) + r2)[0] == '"') by {
                assert(ser_str(x2)[0] == '"');
            }
            assert((ser_opt_str(p1) + r1)[0] == 'n');
            assert(false);
        },
    }
}

/// `ser_str_list` unfolded from the front.
proof fn lemma_ser_str_list_head(l: Seq<Seq<char>>)
    requires
        l.len() > 0,
    ensures
        ser_str_list(l) == ser_str(l[0]) + (if l.len() == 1 {
            Seq::<char>::empty()
        } else {
            seq![','] + ser_str_list(l.drop_first())
        }),
    decreases l.len(),
{
    let dl = l.drop_last();
    if l.len() == 1 {
        assert(dl =~= Seq::<Seq<char>>::empty());
        assert(ser_str_list(dl) == Seq::<char>::empty());
        assert(ser_str_list(l) =~= ser_str(l[0]) + Seq::<char>::empty());
    } else {
        lemma_ser_str_list_head(dl);
        assert(l[0] == dl[0]);
        if dl.len() == 1 {
            assert(l.drop_first() =~= seq![l.last()]);
            assert(l.drop_first().drop_last() =~= Seq::<Seq<char>>::empty());
            assert(ser_str_list(Seq::<Seq<char>>::empty()) == Seq::<char>::empty());
            assert(l.drop_first().len() == 1);
            assert(l.drop_first().last() == l.last());
            assert(ser_str_list(l.drop_first()) =~= ser_str(l.last()));
            assert(ser_str_list(l) =~= ser_str(l[0]) + (seq![','] + ser_str_list(l.drop_first())));
        } else {
            assert(l.drop_first().drop_last() =~= dl.drop_first());
            assert(l.drop_first().last() == l.last());
            assert(l.drop_first().len() > 1);
            assert(ser_str_list(l.drop_first()) == ser_str_list(dl.drop_first()) + seq![',']
                + ser_str(l.last()));
            assert(ser_str_list(l) =~= ser_str(l[0]) + (seq![','] + ser_str_list(l.drop_first())));
        }
    }
}

/// A comma-joined string list against a closing bracket is
/// unambiguous.
#[verifier::rlimit(100)]
proof fn lemma_list_unambiguous(l1: Seq<Seq<char>>, r1: Seq<char>, l2: Seq<Seq<char>>, r2: Seq<
    char,
>)
    requires
        names_plain(l1),
        names_plain(l2),
        ser_str_list(l1) + seq![']'] + r1 == ser_str_list(l2) + seq![']'] + r2,
    ensures
        l1 == l2,
        r1 == r2,
    decreases l1.len(),
{
    if l1.len() == 0 && l2.len() == 0 {
        assert(ser_str_list(l1) + seq![']'] + r1 =~= seq![']'] + r1);
        assert(ser_str_list(l2) + seq![']'] + r2 =~= seq![']'] + r2);
        lemma_strip_prefix(seq![']'], r1, r2);
        assert(l1 =~= l2);
    } else if l1.len() == 0 {
        lemma_ser_str_list_head(l2);
        assert((ser_str_list(l1) + seq![']'] + r1)[0] == ']');
        assert((ser_str_list(l2) + seq![']'] + r2)[0] == '"') by {
            assert(ser_str(l2[0])[0] == '"');
            assert(ser_str_list(l2)[0] == '"');
        }
        assert(false);
    } else if l2.len() == 0 {
        lemma_ser_str_list_head(l1);
        assert((ser_str_list(l2) + seq![']'] + r2)[0] == ']');
        assert((ser_str_list(l1) + seq![']'] + r1)[0] == '"') by {
            assert(ser_str(l1[0])[0] == '"');
            assert(ser_str_list(l1)[0] == '"');
        }
        assert(false);
    } else {
        lemma_ser_str_list_head(l1);
        lemma_ser_str_list_head(l2);
        let tail1: Seq<char> = if l1.len() == 1 {
            seq![']'] + r1
        } else {
            seq![','] + ser_str_list(l1.drop_first()) + seq![']'] + r1
        };
        let tail2: Seq<char> = if l2.len() == 1 {
            seq![']'] + r2
        } else {
            seq![','] + ser_str_list(l2.drop_first()) + seq![']'] + r2
        };
        assert(ser_str_list(l1) + seq![']'] + r1 =~= ser_str(l1[0]) + tail1);
        assert(ser_str_list(l2) + seq![']'] + r2 =~= ser_str(l2[0]) + tail2);
        lemma_quoted_unambiguous(l1[0], tail1, l2[0], tail2);
        if l1.len() == 1 && l2.len() == 1 {
            lemma_strip_prefix(seq![']'], r1, r2);
            assert(l1 =~= l2);
        } else if l1.len() == 1 {
            assert(tail1[0] == ']');
            assert(tail2[0] == ',');
            assert(false);
        } else if l2.len() == 1 {
            assert(tail1[0] == ',');
            assert(tail2[0] == ']');
            assert(false);
        } else {
            assert(tail1 =~= seq![','] + (ser_str_list(l1.drop_first()) + seq![']'] + r1));
            assert(tail2 =~= seq![','] + (ser_str_list(l2.drop_first()) + seq![']'] + r2));
            lemma_strip_prefix(
                seq![','],
                ser_str_list(l1.drop_first()) + seq![']'] + r1,
                ser_str_list(l2.drop_first()) + seq![']'] + r2,
            );
            assert(forall|k: int|
                0 <= k < l1.drop_first().len() ==> plain_name(#[trigger] l1.drop_first()[k]));
            assert(forall|k: int|
                0 <= k < l2.drop_first().len() ==> plain_name(#[trigger] l2.drop_first()[k]));
            lemma_list_unambiguous(l1.drop_first(), r1, l2.drop_first(), r2);
            assert(l1.len() == l2.len());
            assert forall|i: int| 0 <= i < l1.len() implies l1[i] == l2[i] by {
                if i > 0 {
                    assert(l1.drop_first()[i - 1] == l1[i]);
                    assert(l2.drop_first()[i - 1] == l2[i]);
                }
            }
            assert(l1 =~= l2);
        }
    }
}

/// A serialized branch record against any remainder is unambiguous.
#[verifier::rlimit(100)]
proof fn lemma_branch_unambiguous(b1: BranchView, r1: Seq<char>, b2: BranchView, r2: Seq<char>)
    requires
        branch_plain(b1),
        branch_plain(b2),
        ser_branch(b1) + r1 == ser_branch(b2) + r2,
    ensures
        b1 == b2,
        r1 == r2,
{
    reveal_strlit("]}");
    assert("]}"@ =~= seq![']'] + seq!['}']);
    let rest1a = ",\"parent\":"@ + ser_opt_str(b1.parent) + ",\"children\":["@ + ser_str_list(
        b1.children,
    ) + seq![']'] + (seq!['}'] + r1);
    let rest2a = ",\"parent\":"@ + ser_opt_str(b2.parent) + ",\"children\":["@ + ser_str_list(
        b2.children,
    ) + seq![']'] + (seq!['}'] + r2);
    assert(ser_branch(b1) + r1 =~= "{\"name\":"@ + (ser_str(b1.name) + rest1a));
    assert(ser_branch(b2) + r2 =~= "{\"name\":"@ + (ser_str(b2.name) + rest2a));
    lemma_strip_prefix("{\"name\":"@, ser_str(b1.name) + rest1a, ser_str(b2.name) + rest2a);
    lemma_quoted_unambiguous(b1.name, rest1a, b2.name, rest2a);
    let rest1b = ser_opt_str(b1.parent) + (",\"children\":["@ + (ser_str_list(b1.children)
        + (seq![']'] + (seq!['}'] + r1))));
    let rest2b = ser_opt_str(b2.parent) + (",\"children\":["@ + (ser_str_list(b2.children)
        + (seq![']'] + (seq!['}'] + r2))));
    assert(rest1a =~= ",\"parent\":"@ + rest1b);
    assert(rest2a =~= ",\"parent\":"@ + rest2b);
    lemma_strip_prefix(",\"parent\":"@, rest1b, rest2b);
    lemma_opt_unambiguous(
        b1.parent,
        ",\"children\":["@ + (ser_str_list(b1.children) + (seq![']'] + (seq!['}'] + r1))),
        b2.parent,
        ",\"children\":["@ + (ser_str_list(b2.children) + (seq![']'] + (seq!['}'] + r2))),
    );
    lemma_strip_prefix(
        ",\"children\":["@,
        ser_str_list(b1.children) + (seq![']'] + (seq!['}'] + r1)),
        ser_str_list(b2.children) + (seq![']'] + (seq!['}'] + r2)),
    );
    assert(ser_str_list(b1.children) + (seq![']'] + (seq!['}'] + r1)) =~= ser_str_list(b1.children)
        + seq![']'] + (seq!['}'] + r1));
    assert(ser_str_list(b2.children) + (seq![']'] + (seq!['}'] + r2)) =~= ser_str_list(b2.children)
        + seq![']'] + (seq!['}'] + r2));
    lemma_list_unambiguous(b1.children, seq!['}'] + r1, b2.children, seq!['}'] + r2);
    lemma_strip_prefix(seq!['}'], r1, r2);
    assert(b1 =~= b2);
}

/// `ser_branches` unfolded from the front.
proof fn lemma_ser_branches_head(s: Seq<BranchView>)
    requires
        s.len() > 0,
    ensures
        ser_branches(s) == ser_branch(s[0]) + (if s.len() == 1 {
            Seq::<char>::empty()
        } else {
            seq![','] + ser_branches(s.drop_first())
        }),
    decreases s.len(),
{
    let dl = s.drop_last();
    if s.len() == 1 {
        assert(dl =~= Seq::<BranchView>::empty());
        assert(ser_branches(dl) == Seq::<char>::empty());
        assert(ser_branches(s) =~= ser_branch(s[0]) + Seq::<char>::empty());
    } else {
        lemma_ser_branches_head(dl);
        assert(s[0] == dl[0]);
        if dl.len() == 1 {
            assert(s.drop_first() =~= seq![s.last()]);
            assert(s.drop_first().drop_last() =~= Seq::<BranchView>::empty());
            assert(ser_branches(Seq::<BranchView>::empty()) == Seq::<char>::empty());
            assert(s.drop_first().len() == 1);
            assert(s.drop_first().last() == s.last());
            assert(ser_branches(s.drop_first()) =~= ser_branch(s.last()));
            assert(ser_branches(s) =~= ser_branch(s[0]) + (seq![','] + ser_branches(
                s.drop_first(),
            )));
        } else {
            assert(s.drop_first().drop_last() =~= dl.drop_first());
            assert(s.drop_first().last() == s.last());
            assert(s.drop_first().len() > 1);
            assert(ser_branches(s.drop_first()) == ser_branches(dl.drop_first()) + seq![',']
                + ser_branch(s.last()));
            assert(ser_branches(s) =~= ser_branch(s[0]) + (seq![','] + ser_branches(
                s.drop_first(),
            )));
        }
    }
}

/// A comma-joined record list against a closing bracket is
/// unambiguous.
#[verifier::rlimit(100)]
proof fn lemma_branches_unambiguous(
    s1: Seq<BranchView>,
    r1: Seq<char>,
    s2: Seq<BranchView>,
    r2: Seq<char>,
)
    requires
        state_plain(s1),
        state_plain(s2),
        ser_branches(s1) + seq![']'] + r1 == ser_branches(s2) + seq![']'] + r2,
    ensures
        s1 == s2,
        r1 == r2,
    decreases s1.len(),
{
    reveal_strlit("{\"name\":");
    if s1.len() == 0 && s2.len() == 0 {
        assert(ser_branches(s1) + seq![']'] + r1 =~= seq![']'] + r1);
        assert(ser_branches(s2) + seq![']'] + r2 =~= seq![']'] + r2);
        lemma_strip_prefix(seq![']'], r1, r2);
        assert(s1 =~= s2);
    } else if s1.len() == 0 {
        lemma_ser_branches_head(s2);
        assert((ser_branches(s1) + seq![']'] + r1)[0] == ']');
        assert((ser_branches(s2) + seq![']'] + r2)[0] == '{') by {
            assert(ser_branch(s2[0])[0] == '{') by {
                assert("{\"name\":"@[0] == '{');
            }
            assert(ser_branches(s2)[0] == '{');
        }
        assert(false);
    } else if s2.len() == 0 {
        lemma_ser_branches_head(s1);
        assert((ser_branches(s2) + seq![']'] + r2)[0] == ']');
        assert((ser_branches(s1) + seq![']'] + r1)[0] == '{') by {
            assert(ser_branch(s1[0])[0] == '{') by {
                assert("{\"name\":"@[0] == '{');
            }
            assert(ser_branches(s1)[0] == '{');
        }
        assert(false);
    } else {
        lemma_ser_branches_head(s1);
        lemma_ser_branches_head(s2);
        let tail1: Seq<char> = if s1.len() == 1 {
            seq![']'] + r1
        } else {
            seq![','] + ser_branches(s1.drop_first()) + seq![']'] + r1
        };
        let tail2: Seq<char> = if s2.len() == 1 {
            seq![']'] + r2
        } else {
            seq![','] + ser_branches(s2.drop_first()) + seq![']'] + r2
        };
        assert(ser_branches(s1) + seq![']'] + r1 =~= ser_branch(s1[0]) + tail1);
        assert(ser_branches(s2) + seq![']'] + r2 =~= ser_branch(s2[0]) + tail2);
        lemma_branch_unambiguous(s1[0], tail1, s2[0], tail2);
        if s1.len() == 1 && s2.len() == 1 {
            lemma_strip_prefix(seq![']'], r1, r2);
            assert(s1 =~= s2);
        } else if s1.len() == 1 {
            assert(tail1[0] == ']');
            assert(tail2[0] == ',');
            assert(false);
        } else if s2.len() == 1 {
            assert(tail1[0] == ',');
            assert(tail2[0] == ']');
            assert(false);
        } else {
            assert(tail1 =~= seq![','] + (ser_branches(s1.drop_first()) + seq![']'] + r1));
            assert(tail2 =~= seq![','] + (ser_branches(s2.drop_first()) + seq![']'] + r2));
            lemma_strip_prefix(
                seq![','],
                ser_branches(s1.drop_first()) + seq![']'] + r1,
                ser_branches(s2.drop_first()) + seq![']'] + r2,
            );
            assert(forall|k: int|
                0 <= k < s1.drop_first().len() ==> branch_plain(#[trigger] s1.drop_first()[k]));
            assert(forall|k: int|
                0 <= k < s2.drop_first().len() ==> branch_plain(#[trigger] s2.drop_first()[k]));
            lemma_branches_unambiguous(s1.drop_first(), r1, s2.drop_first(), r2);
            assert(s1.len() == s2.len());
            assert forall|i: int| 0 <= i < s1.len() implies s1[i] == s2[i] by {
                if i > 0 {
                    assert(s1.drop_first()[i - 1] == s1[i]);
                    assert(s2.drop_first()[i - 1] == s2[i]);
                }
            }
            assert(s1 =~= s2);
        }
    }
}

/// Round trip, uniqueness direction: a persisted document denotes
/// at most one forest. Together with `parse_state`'s contract, what
/// a load returns is exactly the forest whose serialization the
/// file holds.
pub proof fn lemma_serialization_injective(a: Seq<BranchView>, b: Seq<BranchView>)
    requires
        state_plain(a),
        state_plain(b),
        ser_state(a) == ser_state(b),
    ensures
        a == b,
{
    reveal_strlit("]}");
    assert("]}"@ =~= seq![']'] + seq!['}']);
    assert(ser_state(a) =~= "{\"branches\":["@ + (ser_branches(a) + seq![']'] + seq!['}']));
    assert(ser_state(b) =~= "{\"branches\":["@ + (ser_branches(b) + seq![']'] + seq!['}']));
    lemma_strip_prefix(
        "{\"branches\":["@,
        ser_branches(a) + seq![']'] + seq!['}'],
        ser_branches(b) + seq![']'] + seq!['}'],
    );
    lemma_branches_unambiguous(a, seq!['}'], b, seq!['}']);
}

/// A parsed prefix of a string list that continues with a comma is
/// a proper prefix of the full list, with the next element waiting.
#[verifier::rlimit(100)]
proof fn lemma_list_prefix(out: Seq<Seq<char>>, x: Seq<char>, l: Seq<Seq<char>>, y: Seq<char>)
    requires
        names_plain(out),
        names_plain(l),
        out.len() >= 1,
        ser_str_list(out) + seq![','] + x == ser_str_list(l) + seq![']'] + y,
    ensures
        out.len() < l.len(),
        out == l.take(out.len() as int),
        x == ser_str_list(l.skip(out.len() as int)) + seq![']'] + y,
        l.skip(out.len() as int).len() >= 1,
    decreases out.len(),
{
    lemma_ser_str_list_head(out);
    if l.len() == 0 {
        assert((ser_str_list(l) + seq![']'] + y)[0] == ']');
        assert((ser_str_list(out) + seq![','] + x)[0] == '"') by {
            assert(ser_str(out[0])[0] == '"') by {
                assert((seq!['"'] + out[0])[0] == '"');
            }
            assert(ser_str_list(out)[0] == '"');
        }
        assert(false);
    }
    lemma_ser_str_list_head(l);
    let tail_out: Seq<char> = if out.len() == 1 {
        seq![','] + x
    } else {
        seq![','] + ser_str_list(out.drop_first()) + seq![','] + x
    };
    let tail_l: Seq<char> = if l.len() == 1 {
        seq![']'] + y
    } else {
        seq![','] + ser_str_list(l.drop_first()) + seq![']'] + y
    };
    assert(ser_str_list(out) + seq![','] + x =~= ser_str(out[0]) + tail_out);
    assert(ser_str_list(l) + seq![']'] + y =~= ser_str(l[0]) + tail_l);
    lemma_quoted_unambiguous(out[0], tail_out, l[0], tail_l);
    if out.len() == 1 {
        if l.len() == 1 {
            assert(tail_out[0] == ',');
            assert(tail_l[0] == ']');
            assert(false);
        }
        assert(tail_out =~= seq![','] + x);
        assert(tail_l =~= seq![','] + (ser_str_list(l.drop_first()) + seq![']'] + y));
        lemma_strip_prefix(seq![','], x, ser_str_list(l.drop_first()) + seq![']'] + y);
        assert(l.skip(1) =~= l.drop_first());
        assert(out =~= l.take(1));
    } else {
        if l.len() == 1 {
            assert(tail_out[0] == ',');
            assert(tail_l[0] == ']');
            assert(false);
        }
        assert(tail_out =~= seq![','] + (ser_str_list(out.drop_first()) + seq![','] + x));
        assert(tail_l =~= seq![','] + (ser_str_list(l.drop_first()) + seq![']'] + y));
        lemma_strip_prefix(
            seq![','],
            ser_str_list(out.drop_first()) + seq![','] + x,
            ser_str_list(l.drop_first()) + seq![']'] + y,
        );
        assert(forall|k: int|
            0 <= k < out.drop_first().len() ==> plain_name(#[trigger] out.drop_first()[k]));
        assert(forall|k: int|
            0 <= k < l.drop_first().len() ==> plain_name(#[trigger] l.drop_first()[k]));
        lemma_list_prefix(out.drop_first(), x, l.drop_first(), y);
        assert(l.skip(out.len() as int) =~= l.drop_first().skip(out.len() - 1));
        assert forall|k: int| 0 <= k < out.len() implies out[k] == l.take(out.len() as int)[k] by {
            if k > 0 {
                assert(out.drop_first()[k - 1] == l.drop_first().take(out.len() - 1)[k - 1]);
            }
        }
        assert(out =~= l.take(out.len() as int));
    }
}

/// A parsed string list that stops before a non-comma is the whole
/// list when the text carries one followed by a closing bracket.
#[verifier::rlimit(100)]
proof fn lemma_list_closed(res: Seq<Seq<char>>, a: Seq<char>, l: Seq<Seq<char>>, y: Seq<char>)
    requires
        names_plain(res),
        names_plain(l),
        ser_str_list(res) + a == ser_str_list(l) + seq![']'] + y,
        a.len() == 0 || a[0] != ',',
        res.len() == 0 ==> a.len() > 0 && a[0] == ']',
    ensures
        res == l,
        a == seq![']'] + y,
    decreases l.len() + res.len(),
{
    if res.len() == 0 && l.len() == 0 {
        assert(ser_str_list(res) + a =~= a);
        assert(ser_str_list(l) + seq![']'] + y =~= seq![']'] + y);
        assert(res =~= l);
    } else if l.len() == 0 {
        lemma_ser_str_list_head(res);
        assert((ser_str_list(res) + a)[0] == '"') by {
            assert(ser_str(res[0])[0] == '"') by {
                assert((seq!['"'] + res[0])[0] == '"');
            }
            assert(ser_str_list(res)[0] == '"');
        }
        assert((ser_str_list(l) + seq![']'] + y)[0] == ']');
        assert(false);
    } else if res.len() == 0 {
        lemma_ser_str_list_head(l);
        assert((ser_str_list(l) + seq![']'] + y)[0] == '"') by {
            assert(ser_str(l[0])[0] == '"') by {
                assert((seq!['"'] + l[0])[0] == '"');
            }
            assert(ser_str_list(l)[0] == '"');
        }
        assert((ser_str_list(res) + a)[0] == ']');
        assert(false);
    } else {
        lemma_ser_str_list_head(res);
        lemma_ser_str_list_head(l);
        let tail_res: Seq<char> = if res.len() == 1 {
            a
        } else {
            seq![','] + ser_str_list(res.drop_first()) + a
        };
        let tail_l: Seq<char> = if l.len() == 1 {
            seq![']'] + y
        } else {
            seq![','] + ser_str_list(l.drop_first()) + seq![']'] + y
        };
        assert(ser_str_list(res) + a =~= ser_str(res[0]) + tail_res);
        assert(ser_str_list(l) + seq![']'] + y =~= ser_str(l[0]) + tail_l);
        lemma_quoted_unambiguous(res[0], tail_res, l[0], tail_l);
        if res.len() == 1 && l.len() == 1 {
            assert(a == seq![']'] + y);
            assert(res =~= l);
        } else if res.len() == 1 {
            assert(tail_l[0] == ',');
            assert(a[0] != ',');
            assert(false);
        } else if l.len() == 1 {
            assert(tail_res[0] == ',');
            assert(tail_l[0] == ']');
            assert(false);
        } else {
            assert(tail_res =~= seq![','] + (ser_str_list(res.drop_first()) + a));
            assert(tail_l =~= seq![','] + (ser_str_list(l.drop_first()) + seq![']'] + y));
            lemma_strip_prefix(
                seq![','],
                ser_str_list(res.drop_first()) + a,
                ser_str_list(l.drop_first()) + seq![']'] + y,
            );
            assert(forall|k: int|
                0 <= k < res.drop_first().len() ==> plain_name(#[trigger] res.drop_first()[k]));
            assert(forall|k: int|
                0 <= k < l.drop_first().len() ==> plain_name(#[trigger] l.drop_first()[k]));
            lemma_list_closed(res.drop_first(), a, l.drop_first(), y);
            assert(res.len() == l.len());
            assert forall|i: int| 0 <= i < res.len() implies res[i] == l[i] by {
                if i > 0 {
                    assert(res.drop_first()[i - 1] == l.drop_first()[i - 1]);
                }
            }
            assert(res =~= l);
        }
    }
}

/// Cutting a known piece off the front of a suffix equality.
proof fn lemma_suffix_step(t: Seq<char>, a: int, b: int, n: int, piece: Seq<char>, rest: Seq<char>)
    requires
        0 <= a <= n <= t.len(),
        t.subrange(a, n) == piece + rest,
        b == a + piece.len(),
    ensures
        a <= b <= n,
        t.subrange(a, b) == piece,
        t.subrange(b, n) == rest,
{
    assert(t.subrange(a, n).len() == n - a);
    assert((piece + rest).len() == piece.len() + rest.len());
    assert(b <= n);
    assert(t.subrange(a, b) =~= piece) by {
        assert forall|k: int| 0 <= k < piece.len() implies t.subrange(a, b)[k] == piece[k] by {
            assert(t.subrange(a, n)[k] == t[a + k]);
            assert((piece + rest)[k] == piece[k]);
        }
    }
    assert(t.subrange(b, n) =~= rest) by {
        assert forall|k: int| 0 <= k < rest.len() implies t.subrange(b, n)[k] == rest[k] by {
            assert(t.subrange(a, n)[piece.len() + k] == t[a + piece.len() + k]);
            assert((piece + rest)[piece.len() + k] == rest[k]);
        }
    }
}

/// A suffix splits at any interior point.
proof fn lemma_suffix_paste(t: Seq<char>, a: int, b: int, n: int)
    requires
        0 <= a <= b <= n <= t.len(),
    ensures
        t.subrange(a, n) == t.subrange(a, b) + t.subrange(b, n),
{
    assert(t.subrange(a, n) =~= t.subrange(a, b) + t.subrange(b, n));
}

/// A suffix carrying a serialized branch record splits into its
/// fields at known offsets.
#[verifier::rlimit(100)]
proof fn lemma_branch_decompose(t: Seq<char>, pos: int, n: int, b: BranchView, zz: Seq<char>)
    requires
        0 <= pos <= n <= t.len(),
        t.subrange(pos, n) == ser_branch(b) + zz,
    ensures
        ({
            let a1 = pos + "{\"name\":"@.len();
            let a2 = a1 + ser_str(b.name).len();
            let a3 = a2 + ",\"parent\":"@.len();
            let a4 = a3 + ser_opt_str(b.parent).len();
            let a5 = a4 + ",\"children\":["@.len();
            let a6 = a5 + ser_str_list(b.children).len();
            &&& pos <= a1 <= a2 <= a3 <= a4 <= a5 <= a6 && a6 + 2 <= n
            &&& t.subrange(pos, a1) == "{\"name\":"@
            &&& t.subrange(a1, n) == ser_str(b.name) + t.subrange(a2, n)
            &&& t.subrange(a2, a3) == ",\"parent\":"@
            &&& t.subrange(a3, n) == ser_opt_str(b.parent) + t.subrange(a4, n)
            &&& t.subrange(a4, a5) == ",\"children\":["@
            &&& t.subrange(a5, n) == ser_str_list(b.children) + (seq![']'] + (seq!['}'] + zz))
            &&& t.subrange(a6, n) == seq![']'] + (seq!['}'] + zz)
            &&& t.subrange(a6, a6 + 2) == "]}"@
            &&& n == a6 + 2 + zz.len()
        }),
{
    reveal_strlit("]}");
    assert("]}"@ =~= seq![']'] + seq!['}']);
    let a1 = pos + "{\"name\":"@.len();
    let a2 = a1 + ser_str(b.name).len();
    let a3 = a2 + ",\"parent\":"@.len();
    let a4 = a3 + ser_opt_str(b.parent).len();
    let a5 = a4 + ",\"children\":["@.len();
    let a6 = a5 + ser_str_list(b.children).len();
    assert(t.subrange(pos, n) =~= "{\"name\":"@ + (ser_str(b.name) + (",\"parent\":"@ + (
    ser_opt_str(b.parent) + (",\"children\":["@ + (ser_str_list(b.children) + (seq![']'] + (
    seq!['}'] + zz))))))));
    lemma_suffix_step(
        t,
        pos,
        a1,
        n,
        "{\"name\":"@,
        ser_str(b.name) + (",\"parent\":"@ + (ser_opt_str(b.parent) + (",\"children\":["@ + (
        ser_str_list(b.children) + (seq![']'] + (seq!['}'] + zz)))))),
    );
    lemma_suffix_step(
        t,
        a1,
        a2,
        n,
        ser_str(b.name),
        ",\"parent\":"@ + (ser_opt_str(b.parent) + (",\"children\":["@ + (ser_str_list(b.children)
            + (seq![']'] + (seq!['}'] + zz))))),
    );
    lemma_suffix_step(
        t,
        a2,
        a3,
        n,
        ",\"parent\":"@,
        ser_opt_str(b.parent) + (",\"children\":["@ + (ser_str_list(b.children) + (seq![']'] + (
        seq!['}'] + zz)))),
    );
    lemma_suffix_step(
        t,
        a3,
        a4,
        n,
        ser_opt_str(b.parent),
        ",\"children\":["@ + (ser_str_list(b.children) + (seq![']'] + (seq!['}'] + zz))),
    );
    lemma_suffix_step(
        t,
        a4,
        a5,
        n,
        ",\"children\":["@,
        ser_str_list(b.children) + (seq![']'] + (seq!['}'] + zz)),
    );
    lemma_suffix_step(t, a5, a6, n, ser_str_list(b.children), seq![']'] + (seq!['}'] + zz));
    assert(t.subrange(a6, n) =~= (seq![']'] + seq!['}']) + zz);
    lemma_suffix_step(t, a6, a6 + 2, n, seq![']'] + seq!['}'], zz);
    assert(t.subrange(a6, a6 + 2) =~= "]}"@);
}

/// From "the text at `pos` starts with a serialized record", name
/// the remainder and lay the record's fields out at their offsets.
proof fn lay_out_branch(t: Seq<char>, pos: int, n: int, b: BranchView) -> (zz: Seq<char>)
    requires
        0 <= pos,
        pos + ser_branch(b).len() <= n <= t.len(),
        t.subrange(pos, pos + ser_branch(b).len() as int) == ser_branch(b),
    ensures
        ({
            let a1 = pos + "{\"name\":"@.len();
            let a2 = a1 + ser_str(b.name).len();
            let a3 = a2 + ",\"parent\":"@.len();
            let a4 = a3 + ser_opt_str(b.parent).len();
            let a5 = a4 + ",\"children\":["@.len();
            let a6 = a5 + ser_str_list(b.children).len();
            &&& zz == t.subrange(pos + ser_branch(b).len(), n)
            &&& pos <= a1 <= a2 <= a3 <= a4 <= a5 <= a6 && a6 + 2 <= n
            &&& t.subrange(pos, a1) == "{\"name\":"@
            &&& t.subrange(a1, n) == ser_str(b.name) + t.subrange(a2, n)
            &&& t.subrange(a2, a3) == ",\"parent\":"@
            &&& t.subrange(a3, n) == ser_opt_str(b.parent) + t.subrange(a4, n)
            &&& t.subrange(a4, a5) == ",\"children\":["@
            &&& t.subrange(a5, n) == ser_str_list(b.children) + (seq![']'] + (seq!['}'] + zz))
            &&& t.subrange(a6, n) == seq![']'] + (seq!['}'] + zz)
            &&& t.subrange(a6, a6 + 2) == "]}"@
            &&& n == a6 + 2 + zz.len()
        }),
{
    let zz = t.subrange(pos + ser_branch(b).len(), n);
    assert(t.subrange(pos, n) =~= ser_branch(b) + zz) by {
        assert forall|k: int| 0 <= k < n - pos implies t.subrange(pos, n)[k] == (ser_branch(b)
            + zz)[k] by {
            if k < ser_branch(b).len() {
                assert(t.subrange(pos, pos + ser_branch(b).len() as int)[k] == t[pos + k]);
            } else {
                assert(zz[k - ser_branch(b).len()] == t[pos + k]);
            }
        }
    }
    lemma_branch_decompose(t, pos, n, b, zz);
    zz
}

/// First character of a serialized record.
proof fn lemma_branch_first_char(b: BranchView)
    ensures
        ser_branch(b).len() > 0,
        ser_branch(b)[0] == '{',
{
    reveal_strlit("{\"name\":");
    assert("{\"name\":"@[0] == '{');
    assert(("{\"name\":"@ + ser_str(b.name))[0] == '{');
    assert(("{\"name\":"@ + ser_str(b.name) + ",\"parent\":"@)[0] == '{');
    assert(("{\"name\":"@ + ser_str(b.name) + ",\"parent\":"@ + ser_opt_str(b.parent))[0] == '{');
    assert(("{\"name\":"@ + ser_str(b.name) + ",\"parent\":"@ + ser_opt_str(b.parent)
        + ",\"children\":["@)[0] == '{');
    assert(("{\"name\":"@ + ser_str(b.name) + ",\"parent\":"@ + ser_opt_str(b.parent)
        + ",\"children\":["@ + ser_str_list(b.children))[0] == '{');
}

/// A parsed prefix of a record list that continues with a comma is
/// a proper prefix of the full list, with the next record waiting.
#[verifier::rlimit(100)]
proof fn lemma_branches_prefix(
    out: Seq<BranchView>,
    x: Seq<char>,
    l: Seq<BranchView>,
    y: Seq<char>,
)
    requires
        state_plain(out),
        state_plain(l),
        out.len() >= 1,
        ser_branches(out) + seq![','] + x == ser_branches(l) + seq![']'] + y,
    ensures
        out.len() < l.len(),
        out == l.take(out.len() as int),
        x == ser_branches(l.skip(out.len() as int)) + seq![']'] + y,
        l.skip(out.len() as int).len() >= 1,
    decreases out.len(),
{
    lemma_ser_branches_head(out);
    if l.len() == 0 {
        assert((ser_branches(l) + seq![']'] + y)[0] == ']');
        assert((ser_branches(out) + seq![','] + x)[0] == '{') by {
            lemma_branch_first_char(out[0]);
            assert(ser_branches(out)[0] == '{');
        }
        assert(false);
    }
    lemma_ser_branches_head(l);
    let tail_out: Seq<char> = if out.len() == 1 {
        seq![','] + x
    } else {
        seq![','] + ser_branches(out.drop_first()) + seq![','] + x
    };
    let tail_l: Seq<char> = if l.len() == 1 {
        seq![']'] + y
    } else {
        seq![','] + ser_branches(l.drop_first()) + seq![']'] + y
    };
    assert(ser_branches(out) + seq![','] + x =~= ser_branch(out[0]) + tail_out);
    assert(ser_branches(l) + seq![']'] + y =~= ser_branch(l[0]) + tail_l);
    lemma_branch_unambiguous(out[0], tail_out, l[0], tail_l);
    if out.len() == 1 {
        if l.len() == 1 {
            assert(tail_out[0] == ',');
            assert(tail_l[0] == ']');
            assert(false);
        }
        assert(tail_out =~= seq![','] + x);
        assert(tail_l =~= seq![','] + (ser_branches(l.drop_first()) + seq![']'] + y));
        lemma_strip_prefix(seq![','], x, ser_branches(l.drop_first()) + seq![']'] + y);
        assert(l.skip(1) =~= l.drop_first());
        assert(out =~= l.take(1));
    } else {
        if l.len() == 1 {
            assert(tail_out[0] == ',');
            assert(tail_l[0] == ']');
            assert(false);
        }
        assert(tail_out =~= seq![','] + (ser_branches(out.drop_first()) + seq![','] + x));
        assert(tail_l =~= seq![','] + (ser_branches(l.drop_first()) + seq![']'] + y));
        lemma_strip_prefix(
            seq![','],
            ser_branches(out.drop_first()) + seq![','] + x,
            ser_branches(l.drop_first()) + seq![']'] + y,
        );
        assert(forall|k: int|
            0 <= k < out.drop_first().len() ==> branch_plain(#[trigger] out.drop_first()[k]));
        assert(forall|k: int|
            0 <= k < l.drop_first().len() ==> branch_plain(#[trigger] l.drop_first()[k]));
        lemma_branches_prefix(out.drop_first(), x, l.drop_first(), y);
        assert(l.skip(out.len() as int) =~= l.drop_first().skip(out.len() - 1));
        assert forall|k: int| 0 <= k < out.len() implies out[k] == l.take(out.len() as int)[k] by {
            if k > 0 {
                assert(out.drop_first()[k - 1] == l.drop_first().take(out.len() - 1)[k - 1]);
            }
        }
        assert(out =~= l.take(out.len() as int));
    }
}

/// A parsed record list that stops before a non-comma is the whole
/// list when the text carries one followed by a closing bracket.
#[verifier::rlimit(100)]
proof fn lemma_branches_closed(
    res: Seq<BranchView>,
    a: Seq<char>,
    l: Seq<BranchView>,
    y: Seq<char>,
)
    requires
        state_plain(res),
        state_plain(l),
        ser_branches(res) + a == ser_branches(l) + seq![']'] + y,
        a.len() == 0 || a[0] != ',',
        res.len() == 0 ==> a.len() > 0 && a[0] == ']',
    ensures
        res == l,
        a == seq![']'] + y,
    decreases l.len() + res.len(),
{
    if res.len() == 0 && l.len() == 0 {
        assert(ser_branches(res) + a =~= a);
        assert(ser_branches(l) + seq![']'] + y =~= seq![']'] + y);
        assert(res =~= l);
    } else if l.len() == 0 {
        lemma_ser_branches_head(res);
        assert((ser_branches(res) + a)[0] == '{') by {
            lemma_branch_first_char(res[0]);
            assert(ser_branches(res)[0] == '{');
        }
        assert((ser_branches(l) + seq![']'] + y)[0] == ']');
        assert(false);
    } else if res.len() == 0 {
        lemma_ser_branches_head(l);
        assert((ser_branches(l) + seq![']'] + y)[0] == '{') by {
            lemma_branch_first_char(l[0]);
            assert(ser_branches(l)[0] == '{');
        }
        assert((ser_branches(res) + a)[0] == ']');
        assert(false);
    } else {
        lemma_ser_branches_head(res);
        lemma_ser_branches_head(l);
        let tail_res: Seq<char> = if res.len() == 1 {
            a
        } else {
            seq![','] + ser_branches(res.drop_first()) + a
        };
        let tail_l: Seq<char> = if l.len() == 1 {
            seq![']'] + y
        } else {
            seq![','] + ser_branches(l.drop_first()) + seq![']'] + y
        };
        assert(ser_branches(res) + a =~= ser_branch(res[0]) + tail_res);
        assert(ser_branches(l) + seq![']'] + y =~= ser_branch(l[0]) + tail_l);
        lemma_branch_unambiguous(res[0], tail_res, l[0], tail_l);
        if res.len() == 1 && l.len() == 1 {
            assert(a == seq![']'] + y);
            assert(res =~= l);
        } else if res.len() == 1 {
            assert(tail_l[0] == ',');
            assert(a[0] != ',');
            assert(false);
        } else if l.len() == 1 {
            assert(tail_res[0] == ',');
            assert(tail_l[0] == ']');
            assert(false);
        } else {
            assert(tail_res =~= seq![','] + (ser_branches(res.drop_first()) + a));
            assert(tail_l =~= seq![','] + (ser_branches(l.drop_first()) + seq![']'] + y));
            lemma_strip_prefix(
                seq![','],
                ser_branches(res.drop_first()) + a,
                ser_branches(l.drop_first()) + seq![']'] + y,
            );
            assert(forall|k: int|
                0 <= k < res.drop_first().len() ==> branch_plain(#[trigger] res.drop_first()[k]));
            assert(forall|k: int|
                0 <= k < l.drop_first().len() ==> branch_plain(#[trigger] l.drop_first()[k]));
            lemma_branches_closed(res.drop_first(), a, l.drop_first(), y);
            assert(res.len() == l.len());
            assert forall|i: int| 0 <= i < res.len() implies res[i] == l[i] by {
                if i > 0 {
                    assert(res.drop_first()[i - 1] == l.drop_first()[i - 1]);
                }
            }
            assert(res =~= l);
        }
    }
}

/// The layout of a whole persisted document.
proof fn lemma_state_layout(t: Seq<char>, s: Seq<BranchView>)
    requires
        t == ser_state(s),
    ensures
        t.len() == "{\"branches\":["@.len() + ser_branches(s).len() + 2,
        t.subrange(0, "{\"branches\":["@.len() as int) == "{\"branches\":["@,
        t.subrange("{\"branches\":["@.len() as int, t.len() as int) == ser_branches(s) + seq![']']
            + seq!['}'],
{
    reveal_strlit("]}");
    assert("]}"@ =~= seq![']'] + seq!['}']);
    assert(t.subrange(0, t.len() as int) =~= t);
    assert(t =~= "{\"branches\":["@ + (ser_branches(s) + (seq![']'] + seq!['}'])));
    lemma_suffix_step(
        t,
        0,
        "{\"branches\":["@.len() as int,
        t.len() as int,
        "{\"branches\":["@,
        ser_branches(s) + (seq![']'] + seq!['}']),
    );
    assert(ser_branches(s) + (seq![']'] + seq!['}']) =~= ser_branches(s) + seq![']'] + seq!['}']);
}

/// An empty document closes right after its prefix.
proof fn lemma_state_empty(t: Seq<char>, s: Seq<BranchView>, p1: int)
    requires
        t == ser_state(s),
        s.len() == 0,
        p1 == "{\"branches\":["@.len(),
    ensures
        t.len() == p1 + 2,
        t.subrange(p1, p1 + 2) == "]}"@,
        t[p1] == ']',
{
    lemma_state_layout(t, s);
    reveal_strlit("]}");
    assert("]}"@ =~= seq![']'] + seq!['}']);
    assert(t.subrange(p1, t.len() as int) =~= seq![']'] + seq!['}']);
    assert(t.subrange(p1, t.len() as int)[0] == t[p1]);
    assert(t.subrange(p1, p1 + 2) =~= "]}"@);
}

/// A nonempty document opens its first record right after the
/// prefix.
proof fn lemma_state_first_branch(t: Seq<char>, s: Seq<BranchView>, p1: int)
    requires
        t == ser_state(s),
        state_plain(s),
        s.len() > 0,
        p1 == "{\"branches\":["@.len(),
    ensures
        t[p1] == '{',
        p1 + ser_branch(s[0]).len() <= t.len(),
        t.subrange(p1, p1 + ser_branch(s[0]).len()) == ser_branch(s[0]),
        branch_plain(s[0]),
{
    lemma_state_layout(t, s);
    lemma_ser_branches_head(s);
    lemma_branch_first_char(s[0]);
    let h = ser_branch(s[0]);
    let tail: Seq<char> = if s.len() == 1 {
        Seq::<char>::empty()
    } else {
        seq![','] + ser_branches(s.drop_first())
    };
    assert(t.subrange(p1, t.len() as int) =~= h + (tail + (seq![']'] + seq!['}'])));
    lemma_suffix_step(t, p1, p1 + h.len(), t.len() as int, h, tail + (seq![']'] + seq!['}']));
    assert(t.subrange(p1, t.len() as int)[0] == t[p1]);
    assert((h + (tail + (seq![']'] + seq!['}'])))[0] == h[0]);
}

/// After some records and a comma, the next record of the document
/// waits at the cursor.
#[verifier::rlimit(100)]
proof fn lemma_state_more(t: Seq<char>, s: Seq<BranchView>, bsv: Seq<BranchView>, i: int)
    requires
        t == ser_state(s),
        state_plain(s),
        state_plain(bsv),
        bsv.len() >= 1,
        "{\"branches\":["@.len() < i <= t.len(),
        t.subrange("{\"branches\":["@.len() as int, i) == ser_branches(bsv),
        i < t.len(),
        t[i] == ',',
    ensures
        bsv.len() < s.len(),
        bsv == s.take(bsv.len() as int),
        i + 1 + ser_branch(s[bsv.len() as int]).len() <= t.len(),
        t.subrange(i + 1, i + 1 + ser_branch(s[bsv.len() as int]).len()) == ser_branch(
            s[bsv.len() as int],
        ),
        branch_plain(s[bsv.len() as int]),
{
    lemma_state_layout(t, s);
    let p1 = "{\"branches\":["@.len() as int;
    let nn = t.len() as int;
    assert(t.subrange(p1, nn) =~= ser_branches(bsv) + seq![','] + t.subrange(i + 1, nn)) by {
        lemma_suffix_paste(t, p1, i, nn);
        assert(t.subrange(i, nn) =~= seq![','] + t.subrange(i + 1, nn));
    }
    lemma_branches_prefix(bsv, t.subrange(i + 1, nn), s, seq!['}']);
    let rest = s.skip(bsv.len() as int);
    lemma_ser_branches_head(rest);
    let h = ser_branch(rest[0]);
    let tail: Seq<char> = if rest.len() == 1 {
        Seq::<char>::empty()
    } else {
        seq![','] + ser_branches(rest.drop_first())
    };
    assert(t.subrange(i + 1, nn) =~= h + (tail + (seq![']'] + seq!['}'])));
    lemma_suffix_step(t, i + 1, i + 1 + h.len(), nn, h, tail + (seq![']'] + seq!['}']));
    assert(rest[0] == s[bsv.len() as int]);
}

/// After the last record, only the closing bracket pair remains.
proof fn lemma_state_close(t: Seq<char>, s: Seq<BranchView>, bsv: Seq<BranchView>, i: int)
    requires
        t == ser_state(s),
        state_plain(s),
        state_plain(bsv),
        bsv.len() >= 1,
        "{\"branches\":["@.len() < i <= t.len(),
        t.subrange("{\"branches\":["@.len() as int, i) == ser_branches(bsv),
        i == t.len() || t[i] != ',',
    ensures
        bsv == s,
        t.len() == i + 2,
        t.subrange(i, i + 2) == "]}"@,
{
    lemma_state_layout(t, s);
    let p1 = "{\"branches\":["@.len() as int;
    let nn = t.len() as int;
    lemma_suffix_paste(t, p1, i, nn);
    assert(t.subrange(i, nn).len() == 0 || t.subrange(i, nn)[0] != ',') by {
        if i < nn {
            assert(t.subrange(i, nn)[0] == t[i]);
        }
    }
    lemma_branches_closed(bsv, t.subrange(i, nn), s, seq!['}']);
    assert(t.subrange(i, nn).len() == nn - i);
    lemma_suffix_step(t, i, i + 2, nn, seq![']'] + seq!['}'], Seq::<char>::empty());
    reveal_strlit("]}");
    assert("]}"@ =~= seq![']'] + seq!['}']);
    assert(t.subrange(i, i + 2) =~= "]}"@);
}

/// The view of an optional name.
pub open spec fn opt_str_view(p: Option<String>) -> Option<Seq<char>> {
    match p {
        Some(x) => Some(x@),
        None => None,
    }
}

/// Read the exact literal `lit` at `pos`.
fn expect_lit(text: &str, pos: usize, lit: &str) -> (r: Result<usize, Error>)
    ensures
        match r {
            Ok(end) => {
                &&& end == pos + lit@.len()
                &&& end <= text@.len()
                &&& text@.subrange(pos as int, end as int) == lit@
            },
            Err(e) => e == Error::StateCorrupted,
        },
        pos + lit@.len() <= text@.len() && text@.subrange(pos as int, pos + lit@.len() as int)
            == lit@ ==> r is Ok,
{
    let n = text.unicode_len();
    let m = lit.unicode_len();
    if pos > n || m > n - pos {
        return Err(Error::StateCorrupted);
    }
    for j in 0..m
        invariant
            n == text@.len(),
            m == lit@.len(),
            pos + m <= n,
            forall|k: int| 0 <= k < j ==> text@[pos + k] == lit@[k],
    {
        if text.get_char(pos + j) != lit.get_char(j) {
            proof {
                if text@.subrange(pos as int, pos + lit@.len() as int) == lit@ {
                    assert(text@.subrange(pos as int, pos + lit@.len() as int)[j as int]
                        == text@[pos + j]);
                }
            }
            return Err(Error::StateCorrupted);
        }
    }
    proof {
        assert(text@.subrange(pos as int, (pos + m) as int) =~= lit@);
    }
    Ok(pos + m)
}

/// Read a quoted, escape-free string starting at `pos`. Whatever
/// comes back spans exactly its own serialization.
fn parse_str_at(text: &str, pos: usize) -> (r: Result<(String, usize), Error>)
    ensures
        match r {
            Ok((name, end)) => {
                &&& pos < end <= text@.len()
                &&& text@.subrange(pos as int, end as int) == ser_str(name@)
                &&& plain_name(name@)
            },
            Err(e) => e == Error::StateCorrupted,
        },
        forall|v: Seq<char>|
            plain_name(v) && pos + v.len() + 2 <= text@.len() && text@.subrange(
                pos as int,
                pos + v.len() + 2,
            ) == #[trigger] ser_str(v) ==> r is Ok,
{
    let n = text.unicode_len();
    if pos >= n || text.get_char(pos) != '"' {
        proof {
            assert forall|v: Seq<char>|
                plain_name(v) && pos + v.len() + 2 <= text@.len() && text@.subrange(
                    pos as int,
                    pos + v.len() + 2,
                ) == #[trigger] ser_str(v) implies false by {
                assert(ser_str(v)[0] == '"') by {
                    assert((seq!['"'] + v)[0] == '"');
                }
                assert(text@.subrange(pos as int, pos + v.len() + 2)[0] == text@[pos as int]);
            }
        }
        return Err(Error::StateCorrupted);
    }
    let mut out = String::new();
    let mut i = pos + 1;
    while i < n
        invariant
            n == text@.len(),
            pos < i <= n,
            text@[pos as int] == '"',
            out@ == text@.subrange(pos + 1, i as int),
            plain_name(out@),
        decreases n - i,
    {
        let c = text.get_char(i);
        if c == '"' {
            proof {
                assert(text@.subrange(pos as int, (i + 1) as int) =~= seq!['"'] + out@
                    + seq!['"']);
            }
            return Ok((out, i + 1));
        }
        if c == '\\' || (c as u32) < 32 {
            proof {
                assert forall|v: Seq<char>|
                    plain_name(v) && pos + v.len() + 2 <= text@.len() && text@.subrange(
                        pos as int,
                        pos + v.len() + 2,
                    ) == #[trigger] ser_str(v) implies false by {
                    let sub = text@.subrange(pos as int, pos + v.len() + 2);
                    let q = pos + 1 + v.len();
                    if i < q {
                        assert(sub[i - pos] == text@[i as int]);
                        assert(ser_str(v)[i - pos] == v[i - pos - 1]) by {
                            assert((seq!['"'] + v)[i - pos] == v[i - pos - 1]);
                        }
                        assert(plain_char(v[i - pos - 1]));
                    } else {
                        assert(sub[q - pos] == text@[q]);
                        assert(ser_str(v)[q - pos] == '"') by {
                            assert((seq!['"'] + v).len() == 1 + v.len());
                        }
                        if q < i {
                            assert(out@[q - (pos + 1)] == text@[q]);
                            assert(plain_char(out@[q - (pos + 1)]));
                        } else {
                            assert(c == '"');
                        }
                    }
                }
            }
            return Err(Error::StateCorrupted);
        }
        out.push(c);
        proof {
            assert(out@ =~= text@.subrange(pos + 1, (i + 1) as int));
            assert forall|j: int| 0 <= j < out@.len() implies plain_char(#[trigger] out@[j]) by {
                if j == out@.len() - 1 {
                    assert(out@[j] == c);
                }
            }
        }
        i += 1;
    }
    proof {
        assert forall|v: Seq<char>|
            plain_name(v) && pos + v.len() + 2 <= text@.len() && text@.subrange(
                pos as int,
                pos + v.len() + 2,
            ) == #[trigger] ser_str(v) implies false by {
            let sub = text@.subrange(pos as int, pos + v.len() + 2);
            let q = pos + 1 + v.len();
            assert(sub[q - pos] == text@[q]);
            assert(ser_str(v)[q - pos] == '"') by {
                assert((seq!['"'] + v).len() == 1 + v.len());
            }
            assert(out@[q - (pos + 1)] == text@[q]);
            assert(plain_char(out@[q - (pos + 1)]));
        }
    }
    Err(Error::StateCorrupted)
}

/// Read a quoted string or the literal `null`.
fn parse_opt_str_at(text: &str, pos: usize) -> (r: Result<(Option<String>, usize), Error>)
    ensures
        match r {
            Ok((p, end)) => {
                &&& pos < end <= text@.len()
                &&& text@.subrange(pos as int, end as int) == ser_opt_str(opt_str_view(p))
                &&& match p {
                    Some(x) => plain_name(x@),
                    None => true,
                }
            },
            Err(e) => e == Error::StateCorrupted,
        },
        forall|v: Option<Seq<char>>|
            (match v {
                Some(x) => plain_name(x),
                None => true,
            }) && pos + ser_opt_str(v).len() <= text@.len() && text@.subrange(
                pos as int,
                pos + ser_opt_str(v).len(),
            ) == #[trigger] ser_opt_str(v) ==> r is Ok,
{
    let n = text.unicode_len();
    proof {
        reveal_strlit("null");
        assert("null"@ =~= seq!['n', 'u', 'l', 'l']);
    }
    if pos < n && text.get_char(pos) == 'n' {
        let r0 = expect_lit(text, pos, "null");
        match r0 {
            Err(e) => {
                proof {
                    assert forall|v: Option<Seq<char>>|
                        (match v {
                            Some(x) => plain_name(x),
                            None => true,
                        }) && pos + ser_opt_str(v).len() <= text@.len() && text@.subrange(
                            pos as int,
                            pos + ser_opt_str(v).len(),
                        ) == #[trigger] ser_opt_str(v) implies false by {
                        match v {
                            Some(x) => {
                                assert(ser_str(x)[0] == '"') by {
                                    assert((seq!['"'] + x)[0] == '"');
                                }
                                assert(text@.subrange(pos as int, pos + ser_opt_str(v).len())[0]
                                    == text@[pos as int]);
                            },
                            None => {
                                assert(text@.subrange(pos as int, pos + 4) == "null"@);
                                assert(r0 is Ok);
                            },
                        }
                    }
                }
                Err(e)
            },
            Ok(end) => Ok((None, end)),
        }
    } else {
        let r0 = parse_str_at(text, pos);
        match r0 {
            Err(e) => {
                proof {
                    assert forall|v: Option<Seq<char>>|
                        (match v {
                            Some(x) => plain_name(x),
                            None => true,
                        }) && pos + ser_opt_str(v).len() <= text@.len() && text@.subrange(
                            pos as int,
                            pos + ser_opt_str(v).len(),
                        ) == #[trigger] ser_opt_str(v) implies false by {
                        match v {
                            Some(x) => {
                                assert(ser_opt_str(v).len() == x.len() + 2);
                                assert(r0 is Ok);
                            },
                            None => {
                                assert(text@.subrange(pos as int, pos + 4)[0] == text@[pos as int]);
                                assert(text@[pos as int] == 'n');
                            },
                        }
                    }
                }
                Err(e)
            },
            Ok((name, end)) => Ok((Some(name), end)),
        }
    }
}

/// Read a comma-separated list of quoted strings, stopping before
/// the closing bracket, which the caller owns.
#[verifier::rlimit(100)]
fn parse_str_list_at(text: &str, pos: usize) -> (r: Result<(Vec<String>, usize), Error>)
    ensures
        match r {
            Ok((l, end)) => {
                &&& pos <= end <= text@.len()
                &&& text@.subrange(pos as int, end as int) == ser_str_list(l.deep_view())
                &&& names_plain(l.deep_view())
                &&& end == text@.len() || text@[end as int] != ','
                &&& l.deep_view().len() == 0 ==> end == pos && pos < text@.len() && text@[pos as int]
                    == ']'
            },
            Err(e) => e == Error::StateCorrupted,
        },
        forall|l: Seq<Seq<char>>|
            names_plain(l) && pos + ser_str_list(l).len() + 1 <= text@.len() && text@.subrange(
                pos as int,
                pos + ser_str_list(l).len() + 1,
            ) == #[trigger] ser_str_list(l) + seq![']'] ==> r is Ok,
{
    let n = text.unicode_len();
    if pos < n && text.get_char(pos) == ']' {
        let out: Vec<String> = Vec::new();
        proof {
            assert(out.deep_view() =~= Seq::<Seq<char>>::empty());
            assert(text@.subrange(pos as int, pos as int) =~= Seq::<char>::empty());
        }
        return Ok((out, pos));
    }
    let mut out: Vec<String> = Vec::new();
    let mut i: usize;
    let r0 = parse_str_at(text, pos);
    match r0 {
        Err(e) => {
            proof {
                assert forall|l: Seq<Seq<char>>|
                    names_plain(l) && pos + ser_str_list(l).len() + 1 <= text@.len()
                        && text@.subrange(pos as int, pos + ser_str_list(l).len() + 1)
                        == #[trigger] ser_str_list(l) + seq![']'] implies false by {
                    let ss = ser_str_list(l) + seq![']'];
                    if l.len() == 0 {
                        assert(ss =~= seq![']']);
                        assert(text@.subrange(pos as int, pos + 1)[0] == text@[pos as int]);
                        assert(text@[pos as int] == ']');
                    } else {
                        lemma_ser_str_list_head(l);
                        let h = ser_str(l[0]);
                        assert(ss.subrange(0, h.len() as int) =~= h);
                        assert(pos + l[0].len() + 2 <= text@.len());
                        assert(text@.subrange(pos as int, pos + l[0].len() + 2) =~= ss.subrange(
                            0,
                            h.len() as int,
                        )) by {
                            assert forall|k: int| 0 <= k < l[0].len() + 2 implies text@.subrange(
                                pos as int,
                                pos + l[0].len() + 2,
                            )[k] == ss[k] by {
                                assert(text@.subrange(
                                    pos as int,
                                    pos + ser_str_list(l).len() + 1,
                                )[k] == text@[pos + k]);
                            }
                        }
                        assert(plain_name(l[0]));
                        assert(r0 is Ok);
                    }
                }
            }
            return Err(e);
        },
        Ok((s0, j)) => {
            out.push(s0);
            i = j;
            proof {
                assert(out.deep_view().len() == 1);
                assert(out.deep_view().drop_last() =~= Seq::<Seq<char>>::empty());
                assert(ser_str_list(Seq::<Seq<char>>::empty()) == Seq::<char>::empty());
                assert(out.deep_view().last() == out@[0]@);
                assert(ser_str_list(out.deep_view()) =~= text@.subrange(pos as int, i as int));
            }
        },
    }
    while i < n && text.get_char(i) == ','
        invariant
            n == text@.len(),
            pos < i <= n,
            out.deep_view().len() >= 1,
            text@.subrange(pos as int, i as int) == ser_str_list(out.deep_view()),
            names_plain(out.deep_view()),
        decreases n - i,
    {
        let rx = parse_str_at(text, i + 1);
        match rx {
            Err(e) => {
                proof {
                    assert forall|l: Seq<Seq<char>>|
                        names_plain(l) && pos + ser_str_list(l).len() + 1 <= text@.len()
                            && text@.subrange(pos as int, pos + ser_str_list(l).len() + 1)
                            == #[trigger] ser_str_list(l) + seq![']'] implies false by {
                        let big = text@.subrange(pos as int, n as int);
                        let xx = text@.subrange(i + 1, n as int);
                        let yy = text@.subrange(pos + ser_str_list(l).len() + 1, n as int);
                        assert(big =~= ser_str_list(out.deep_view()) + seq![','] + xx);
                        assert(big =~= ser_str_list(l) + seq![']'] + yy) by {
                            assert forall|k: int| 0 <= k < n - pos implies big[k] == (ser_str_list(
                                l,
                            ) + seq![']'] + yy)[k] by {
                                if k < ser_str_list(l).len() + 1 {
                                    assert(text@.subrange(
                                        pos as int,
                                        pos + ser_str_list(l).len() + 1,
                                    )[k] == text@[pos + k]);
                                    assert((ser_str_list(l) + seq![']'])[k] == (ser_str_list(l)
                                        + seq![']'] + yy)[k]);
                                }
                            }
                        }
                        lemma_list_prefix(out.deep_view(), xx, l, yy);
                        let rest = l.skip(out.deep_view().len() as int);
                        lemma_ser_str_list_head(rest);
                        let h = ser_str(rest[0]);
                        assert(xx == ser_str_list(rest) + seq![']'] + yy);
                        assert(i + 1 + rest[0].len() + 2 <= n) by {
                            assert(xx.len() == n - (i + 1));
                            assert(ser_str_list(rest).len() >= h.len());
                        }
                        assert(text@.subrange(i + 1, i + 1 + rest[0].len() + 2) =~= h) by {
                            assert forall|k: int| 0 <= k < rest[0].len() + 2 implies text@.subrange(
                                i + 1,
                                i + 1 + rest[0].len() + 2,
                            )[k] == h[k] by {
                                assert(xx[k] == text@[i + 1 + k]);
                                assert((ser_str_list(rest) + seq![']'] + yy)[k] == (ser_str_list(
                                    rest,
                                ) + seq![']'])[k]);
                                assert((ser_str_list(rest) + seq![']'])[k] == ser_str_list(
                                    rest,
                                )[k]);
                                assert(ser_str_list(rest)[k] == h[k]);
                            }
                        }
                        assert(plain_name(rest[0]));
                        assert(rx is Ok);
                    }
                }
                return Err(e);
            },
            Ok((sx, j)) => {
                let ghost pre = out.deep_view();
                out.push(sx);
                proof {
                    let cur = out.deep_view();
                    assert(cur.drop_last() =~= pre);
                    assert(cur.last() == sx@);
                    assert(text@[i as int] == ',');
                    assert(text@.subrange(pos as int, j as int) =~= text@.subrange(
                        pos as int,
                        i as int,
                    ) + seq![','] + text@.subrange((i + 1) as int, j as int));
                    assert(ser_str_list(cur) == ser_str_list(pre) + seq![','] + ser_str(sx@));
                    assert forall|x: int| 0 <= x < cur.len() implies plain_name(
                        #[trigger] cur[x],
                    ) by {
                        if x < pre.len() {
                            assert(cur[x] == pre[x]);
                        }
                    }
                }
                i = j;
            },
        }
    }
    Ok((out, i))
}

/// Read one branch record.
#[verifier::rlimit(100)]
fn parse_branch_at(text: &str, pos: usize) -> (r: Result<(Branch, usize), Error>)
    ensures
        match r {
            Ok((b, end)) => {
                &&& pos < end <= text@.len()
                &&& text@.subrange(pos as int, end as int) == ser_branch(b@)
                &&& branch_plain(b@)
            },
            Err(e) => e == Error::StateCorrupted,
        },
        forall|b: BranchView|
            branch_plain(b) && pos + ser_branch(b).len() <= text@.len() && text@.subrange(
                pos as int,
                pos + ser_branch(b).len(),
            ) == #[trigger] ser_branch(b) ==> r is Ok,
{
    let ghost nn = text@.len() as int;
    let r1 = expect_lit(text, pos, "{\"name\":");
    let p1 = match r1 {
        Err(e) => {
            proof {
                assert forall|b: BranchView|
                    branch_plain(b) && pos + ser_branch(b).len() <= text@.len() && text@.subrange(
                        pos as int,
                        pos + ser_branch(b).len(),
                    ) == #[trigger] ser_branch(b) implies false by {
                    let zz = lay_out_branch(text@, pos as int, nn, b);
                    assert(r1 is Ok);
                }
            }
            return Err(e);
        },
        Ok(p) => p,
    };
    let r2 = parse_str_at(text, p1);
    let (name, p2) = match r2 {
        Err(e) => {
            proof {
                assert forall|b: BranchView|
                    branch_plain(b) && pos + ser_branch(b).len() <= text@.len() && text@.subrange(
                        pos as int,
                        pos + ser_branch(b).len(),
                    ) == #[trigger] ser_branch(b) implies false by {
                    let zz = lay_out_branch(text@, pos as int, nn, b);
                    let a1 = pos + "{\"name\":"@.len();
                    let a2 = a1 + ser_str(b.name).len();
                    lemma_suffix_step(text@, a1, a2, nn, ser_str(b.name), text@.subrange(a2, nn));
                    assert(ser_str(b.name).len() == b.name.len() + 2);
                    assert(r2 is Ok);
                }
            }
            return Err(e);
        },
        Ok(x) => x,
    };
    let r3 = expect_lit(text, p2, ",\"parent\":");
    let p3 = match r3 {
        Err(e) => {
            proof {
                assert forall|b: BranchView|
                    branch_plain(b) && pos + ser_branch(b).len() <= text@.len() && text@.subrange(
                        pos as int,
                        pos + ser_branch(b).len(),
                    ) == #[trigger] ser_branch(b) implies false by {
                    let zz = lay_out_branch(text@, pos as int, nn, b);
                    let a1 = pos + "{\"name\":"@.len();
                    let a2 = a1 + ser_str(b.name).len();
                    lemma_suffix_paste(text@, p1 as int, p2 as int, nn);
                    lemma_quoted_unambiguous(
                        name@,
                        text@.subrange(p2 as int, nn),
                        b.name,
                        text@.subrange(a2, nn),
                    );
                    assert(p2 == a2);
                    assert(r3 is Ok);
                }
            }
            return Err(e);
        },
        Ok(p) => p,
    };
    let r4 = parse_opt_str_at(text, p3);
    let (parent, p4) = match r4 {
        Err(e) => {
            proof {
                assert forall|b: BranchView|
                    branch_plain(b) && pos + ser_branch(b).len() <= text@.len() && text@.subrange(
                        pos as int,
                        pos + ser_branch(b).len(),
                    ) == #[trigger] ser_branch(b) implies false by {
                    let zz = lay_out_branch(text@, pos as int, nn, b);
                    let a1 = pos + "{\"name\":"@.len();
                    let a2 = a1 + ser_str(b.name).len();
                    let a3 = a2 + ",\"parent\":"@.len();
                    let a4 = a3 + ser_opt_str(b.parent).len();
                    lemma_suffix_paste(text@, p1 as int, p2 as int, nn);
                    lemma_quoted_unambiguous(
                        name@,
                        text@.subrange(p2 as int, nn),
                        b.name,
                        text@.subrange(a2, nn),
                    );
                    assert(p2 == a2);
                    assert(p3 == a3);
                    lemma_suffix_step(
                        text@,
                        a3,
                        a4,
                        nn,
                        ser_opt_str(b.parent),
                        text@.subrange(a4, nn),
                    );
                    assert(r4 is Ok);
                }
            }
            return Err(e);
        },
        Ok(x) => x,
    };
    let r5 = expect_lit(text, p4, ",\"children\":[");
    let p5 = match r5 {
        Err(e) => {
            proof {
                assert forall|b: BranchView|
                    branch_plain(b) && pos + ser_branch(b).len() <= text@.len() && text@.subrange(
                        pos as int,
                        pos + ser_branch(b).len(),
                    ) == #[trigger] ser_branch(b) implies false by {
                    let zz = lay_out_branch(text@, pos as int, nn, b);
                    let a1 = pos + "{\"name\":"@.len();
                    let a2 = a1 + ser_str(b.name).len();
                    let a3 = a2 + ",\"parent\":"@.len();
                    let a4 = a3 + ser_opt_str(b.parent).len();
                    lemma_suffix_paste(text@, p1 as int, p2 as int, nn);
                    lemma_quoted_unambiguous(
                        name@,
                        text@.subrange(p2 as int, nn),
                        b.name,
                        text@.subrange(a2, nn),
                    );
                    assert(p2 == a2);
                    assert(p3 == a3);
                    lemma_suffix_paste(text@, p3 as int, p4 as int, nn);
                    lemma_opt_unambiguous(
                        opt_str_view(parent),
                        text@.subrange(p4 as int, nn),
                        b.parent,
                        text@.subrange(a4, nn),
                    );
                    assert(p4 == a4);
                    assert(r5 is Ok);
                }
            }
            return Err(e);
        },
        Ok(p) => p,
    };
    let r6 = parse_str_list_at(text, p5);
    let (children, p6) = match r6 {
        Err(e) => {
            proof {
                assert forall|b: BranchView|
                    branch_plain(b) && pos + ser_branch(b).len() <= text@.len() && text@.subrange(
                        pos as int,
                        pos + ser_branch(b).len(),
                    ) == #[trigger] ser_branch(b) implies false by {
                    let zz = lay_out_branch(text@, pos as int, nn, b);
                    let a1 = pos + "{\"name\":"@.len();
                    let a2 = a1 + ser_str(b.name).len();
                    let a3 = a2 + ",\"parent\":"@.len();
                    let a4 = a3 + ser_opt_str(b.parent).len();
                    let a5 = a4 + ",\"children\":["@.len();
                    let a6 = a5 + ser_str_list(b.children).len();
                    lemma_suffix_paste(text@, p1 as int, p2 as int, nn);
                    lemma_quoted_unambiguous(
                        name@,
                        text@.subrange(p2 as int, nn),
                        b.name,
                        text@.subrange(a2, nn),
                    );
                    assert(p2 == a2);
                    assert(p3 == a3);
                    lemma_suffix_paste(text@, p3 as int, p4 as int, nn);
                    lemma_opt_unambiguous(
                        opt_str_view(parent),
                        text@.subrange(p4 as int, nn),
                        b.parent,
                        text@.subrange(a4, nn),
                    );
                    assert(p4 == a4);
                    assert(p5 == a5);
                    assert(text@.subrange(a5, nn) =~= (ser_str_list(b.children) + seq![']']) + (
                    seq!['}'] + zz));
                    lemma_suffix_step(
                        text@,
                        a5,
                        a6 + 1,
                        nn,
                        ser_str_list(b.children) + seq![']'],
                        seq!['}'] + zz,
                    );
                    assert(r6 is Ok);
                }
            }
            return Err(e);
        },
        Ok(x) => x,
    };
    let r7 = expect_lit(text, p6, "]}");
    let p7 = match r7 {
        Err(e) => {
            proof {
                assert forall|b: BranchView|
                    branch_plain(b) && pos + ser_branch(b).len() <= text@.len() && text@.subrange(
                        pos as int,
                        pos + ser_branch(b).len(),
                    ) == #[trigger] ser_branch(b) implies false by {
                    let zz = lay_out_branch(text@, pos as int, nn, b);
                    let a1 = pos + "{\"name\":"@.len();
                    let a2 = a1 + ser_str(b.name).len();
                    let a3 = a2 + ",\"parent\":"@.len();
                    let a4 = a3 + ser_opt_str(b.parent).len();
                    let a5 = a4 + ",\"children\":["@.len();
                    let a6 = a5 + ser_str_list(b.children).len();
                    lemma_suffix_paste(text@, p1 as int, p2 as int, nn);
                    lemma_quoted_unambiguous(
                        name@,
                        text@.subrange(p2 as int, nn),
                        b.name,
                        text@.subrange(a2, nn),
                    );
                    assert(p2 == a2);
                    assert(p3 == a3);
                    lemma_suffix_paste(text@, p3 as int, p4 as int, nn);
                    lemma_opt_unambiguous(
                        opt_str_view(parent),
                        text@.subrange(p4 as int, nn),
                        b.parent,
                        text@.subrange(a4, nn),
                    );
                    assert(p4 == a4);
                    assert(p5 == a5);
                    lemma_suffix_paste(text@, p5 as int, p6 as int, nn);
                    assert(ser_str_list(children.deep_view()) + text@.subrange(p6 as int, nn)
                        == ser_str_list(b.children) + seq![']'] + (seq!['}'] + zz)) by {
                        assert(text@.subrange(a5, nn) =~= (ser_str_list(b.children) + seq![']'])
                            + (seq!['}'] + zz));
                        assert((ser_str_list(b.children) + seq![']']) + (seq!['}'] + zz)
                            =~= ser_str_list(b.children) + seq![']'] + (seq!['}'] + zz));
                    }
                    assert(text@.subrange(p6 as int, nn).len() == 0 || text@.subrange(
                        p6 as int,
                        nn,
                    )[0] != ',') by {
                        if (p6 as int) < nn {
                            assert(text@.subrange(p6 as int, nn)[0] == text@[p6 as int]);
                        }
                    }
                    if children.deep_view().len() == 0 {
                        assert(text@.subrange(p6 as int, nn)[0] == text@[p5 as int]);
                    }
                    lemma_list_closed(
                        children.deep_view(),
                        text@.subrange(p6 as int, nn),
                        b.children,
                        seq!['}'] + zz,
                    );
                    assert(text@.subrange(p6 as int, nn).len() == nn - p6);
                    assert(p6 == a6);
                    assert(r7 is Ok);
                }
            }
            return Err(e);
        },
        Ok(p) => p,
    };
    let ghost pv = opt_str_view(parent);
    let b = Branch { name, parent, children };
    proof {
        assert(b@.parent == pv);
        assert(text@.subrange(pos as int, p7 as int) =~= text@.subrange(pos as int, p1 as int)
            + text@.subrange(p1 as int, p2 as int) + text@.subrange(p2 as int, p3 as int)
            + text@.subrange(p3 as int, p4 as int) + text@.subrange(p4 as int, p5 as int)
            + text@.subrange(p5 as int, p6 as int) + text@.subrange(p6 as int, p7 as int));
        assert(text@.subrange(pos as int, p7 as int) == ser_branch(b@));
    }
    Ok((b, p7))
}


/// Parse the persisted document. An empty text denotes the empty
/// forest; anything else must be exactly the serialized shape, and
/// whatever comes back serializes to the given text.
#[verifier::rlimit(100)]
pub fn parse_state(text: &str) -> (r: Result<State, Error>)
    ensures
        match r {
            Ok(st) => if text@.len() == 0 {
                st@ == Seq::<BranchView>::empty()
            } else {
                text@ == ser_state(st@) && state_plain(st@)
            },
            Err(e) => e == Error::StateCorrupted,
        },
        forall|s: Seq<BranchView>|
            state_plain(s) && text@ == #[trigger] ser_state(s) ==> r is Ok,
{
    let ghost nn = text@.len() as int;
    let n = text.unicode_len();
    if n == 0 {
        return Ok(State::new());
    }
    let r1 = expect_lit(text, 0, "{\"branches\":[");
    let p1 = match r1 {
        Err(e) => {
            proof {
                assert forall|s: Seq<BranchView>|
                    state_plain(s) && text@ == #[trigger] ser_state(s) implies false by {
                    lemma_state_layout(text@, s);
                    assert(r1 is Ok);
                }
            }
            return Err(e);
        },
        Ok(p) => p,
    };
    if p1 < n && text.get_char(p1) == ']' {
        let r2 = expect_lit(text, p1, "]}");
        let p2 = match r2 {
            Err(e) => {
                proof {
                    assert forall|s: Seq<BranchView>|
                        state_plain(s) && text@ == #[trigger] ser_state(s) implies false by {
                        if s.len() > 0 {
                            lemma_state_first_branch(text@, s, p1 as int);
                        } else {
                            lemma_state_empty(text@, s, p1 as int);
                            assert(r2 is Ok);
                        }
                    }
                }
                return Err(e);
            },
            Ok(p) => p,
        };
        if p2 != n {
            proof {
                assert forall|s: Seq<BranchView>|
                    state_plain(s) && text@ == #[trigger] ser_state(s) implies false by {
                    if s.len() > 0 {
                        lemma_state_first_branch(text@, s, p1 as int);
                    } else {
                        lemma_state_empty(text@, s, p1 as int);
                    }
                }
            }
            return Err(Error::StateCorrupted);
        }
        let st = State::new();
        proof {
            assert(ser_branches(st@) == Seq::<char>::empty());
            assert(text@ =~= text@.subrange(0, p1 as int) + text@.subrange(p1 as int, p2 as int));
            assert(text@ == ser_state(st@));
        }
        return Ok(st);
    }
    let mut bs: Vec<Branch> = Vec::new();
    let mut i: usize;
    let r3 = parse_branch_at(text, p1);
    match r3 {
        Err(e) => {
            proof {
                assert forall|s: Seq<BranchView>|
                    state_plain(s) && text@ == #[trigger] ser_state(s) implies false by {
                    if s.len() > 0 {
                        lemma_state_first_branch(text@, s, p1 as int);
                        assert(r3 is Ok);
                    } else {
                        lemma_state_empty(text@, s, p1 as int);
                    }
                }
            }
            return Err(e);
        },
        Ok((b0, j)) => {
            bs.push(b0);
            i = j;
            proof {
                assert(views_of(bs@).len() == 1);
                assert(views_of(bs@).drop_last() =~= Seq::<BranchView>::empty());
                assert(ser_branches(Seq::<BranchView>::empty()) == Seq::<char>::empty());
                assert(views_of(bs@).last() == bs@[0]@);
                assert(ser_branches(views_of(bs@)) =~= text@.subrange(p1 as int, i as int));
                assert(state_plain(views_of(bs@)));
            }
        },
    }
    while i < n && text.get_char(i) == ','
        invariant
            n == text@.len(),
            nn == n,
            p1 < i <= n,
            p1 == "{\"branches\":["@.len(),
            text@.subrange(0, p1 as int) == "{\"branches\":["@,
            views_of(bs@).len() >= 1,
            text@.subrange(p1 as int, i as int) == ser_branches(views_of(bs@)),
            state_plain(views_of(bs@)),
        decreases n - i,
    {
        let rx = parse_branch_at(text, i + 1);
        match rx {
            Err(e) => {
                proof {
                    assert forall|s: Seq<BranchView>|
                        state_plain(s) && text@ == #[trigger] ser_state(s) implies false by {
                        lemma_state_more(text@, s, views_of(bs@), i as int);
                        assert(rx is Ok);
                    }
                }
                return Err(e);
            },
            Ok((bx, j)) => {
                let ghost pre = views_of(bs@);
                let ghost bxv = bx@;
                bs.push(bx);
                proof {
                    let cur = views_of(bs@);
                    assert(cur.drop_last() =~= pre);
                    assert(cur.last() == bxv);
                    assert(text@[i as int] == ',');
                    assert(text@.subrange(p1 as int, j as int) =~= text@.subrange(
                        p1 as int,
                        i as int,
                    ) + seq![','] + text@.subrange((i + 1) as int, j as int));
                    assert(ser_branches(cur) == ser_branches(pre) + seq![','] + ser_branch(bxv));
                    assert forall|x: int| 0 <= x < cur.len() implies branch_plain(
                        #[trigger] cur[x],
                    ) by {
                        if x < pre.len() {
                            assert(cur[x] == pre[x]);
                        }
                    }
                }
                i = j;
            },
        }
    }
    let r4 = expect_lit(text, i, "]}");
    let p_end = match r4 {
        Err(e) => {
            proof {
                assert forall|s: Seq<BranchView>|
                    state_plain(s) && text@ == #[trigger] ser_state(s) implies false by {
                    lemma_state_close(text@, s, views_of(bs@), i as int);
                    assert(r4 is Ok);
                }
            }
            return Err(e);
        },
        Ok(p) => p,
    };
    if p_end != n {
        proof {
            assert forall|s: Seq<BranchView>|
                state_plain(s) && text@ == #[trigger] ser_state(s) implies false by {
                lemma_state_close(text@, s, views_of(bs@), i as int);
            }
        }
        return Err(Error::StateCorrupted);
    }
    let st = State { branches: bs };
    proof {
        assert(st@ == views_of(bs@));
        assert(text@ =~= text@.subrange(0, p1 as int) + text@.subrange(p1 as int, i as int)
            + text@.subrange(i as int, p_end as int));
        assert(text@ == ser_state(st@));
    }
    Ok(st)
}

} // verus!
