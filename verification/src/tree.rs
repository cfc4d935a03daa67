//! Grouping of `::`-separated type names into a tree of modules, and its
//! flattening into indented rows for the dashboard.

use vstd::multiset::Multiset;
use vstd::prelude::*;

use crate::text::{bytes_less, chars_of, lemma_bytes_lt_irreflexive, lemma_bytes_lt_transitive, lemma_text_lt_total,
    str_eq, string_of, strictly_sorted, text_lt, utf8, views_of};

verus! {

broadcast use vstd::string::group_string_axioms;

/// The pieces of `s` between `::` separators, read left to right, as
/// `str::split("::")` gives them.
pub open spec fn path_segments(s: Seq<char>) -> Seq<Seq<char>>
    decreases s.len(),
{
    if s.len() == 0 {
        seq![Seq::<char>::empty()]
    } else if s.len() >= 2 && s[0] == ':' && s[1] == ':' {
        seq![Seq::<char>::empty()] + path_segments(s.skip(2))
    } else {
        let rest = path_segments(s.skip(1));
        rest.update(0, seq![s[0]] + rest[0])
    }
}

proof fn lemma_path_segments_nonempty(s: Seq<char>)
    ensures
        path_segments(s).len() >= 1,
    decreases s.len(),
{
    if s.len() == 0 {
    } else if s.len() >= 2 && s[0] == ':' && s[1] == ':' {
        lemma_path_segments_nonempty(s.skip(2));
    } else {
        lemma_path_segments_nonempty(s.skip(1));
    }
}

/// The segments of a type name (see `path_segments`).
pub fn split_path(name: &str) -> (r: Vec<String>)
    ensures
        views_of(r@) == path_segments(name@),
{
    let cs = chars_of(name);
    let ghost s = cs@;
    let mut done: Vec<String> = Vec::new();
    let mut cur: Vec<char> = Vec::new();
    let mut i: usize = 0;
    proof {
        lemma_path_segments_nonempty(s);
        assert(s.skip(0) =~= s);
        let p = path_segments(s);
        assert(p.update(0, Seq::<char>::empty() + p[0]) =~= p);
    }
    while i < cs.len()
        invariant
            s == cs@,
            i <= s.len(),
            path_segments(s.skip(i as int)).len() >= 1,
            path_segments(s) == views_of(done@) + path_segments(s.skip(i as int)).update(
                0,
                cur@ + path_segments(s.skip(i as int))[0],
            ),
        decreases s.len() - i,
    {
        let ghost t = s.skip(i as int);
        if i + 1 < cs.len() && cs[i] == ':' && cs[i + 1] == ':' {
            proof {
                assert(t.skip(2) =~= s.skip(i + 2));
                lemma_path_segments_nonempty(s.skip(i + 2));
            }
            let ghost before = views_of(done@);
            let seg = string_of(&cur);
            done.push(seg);
            cur = Vec::new();
            proof {
                let rest = path_segments(s.skip(i + 2));
                assert(views_of(done@) =~= before.push(seg@));
                assert(path_segments(t) == seq![Seq::<char>::empty()] + rest);
                assert((seq![Seq::<char>::empty()] + rest).update(0, seg@ + Seq::<char>::empty())
                    =~= seq![seg@] + rest);
                assert(rest.update(0, Seq::<char>::empty() + rest[0]) =~= rest);
                assert(before + (seq![seg@] + rest) =~= before.push(seg@) + rest);
            }
            i = i + 2;
        } else {
            proof {
                assert(t.skip(1) =~= s.skip(i + 1));
                lemma_path_segments_nonempty(s.skip(i + 1));
            }
            let ghost old_cur = cur@;
            cur.push(cs[i]);
            proof {
                let rest = path_segments(s.skip(i + 1));
                assert(path_segments(t) == rest.update(0, seq![s[i as int]] + rest[0]));
                assert(old_cur + (seq![s[i as int]] + rest[0]) =~= cur@ + rest[0]);
                assert(rest.update(0, seq![s[i as int]] + rest[0]).update(0, old_cur + (seq![s[i as int]] + rest[0]))
                    =~= rest.update(0, cur@ + rest[0]));
            }
            i = i + 1;
        }
    }
    proof {
        assert(s.skip(i as int) =~= Seq::<char>::empty());
        assert(path_segments(s.skip(i as int)) =~= seq![Seq::<char>::empty()]);
        assert(seq![Seq::<char>::empty()].update(0, cur@ + Seq::<char>::empty()) =~= seq![cur@]);
    }
    let ghost before = views_of(done@);
    let last = string_of(&cur);
    done.push(last);
    assert(views_of(done@) =~= before.push(last@));
    done
}

/// `a::b`: two segments joined by a separator.
pub open spec fn join_two(a: Seq<char>, b: Seq<char>) -> Seq<char> {
    a + "::"@ + b
}

/// The module groups of a type name and its leaf label: all segments but
/// the last two are groups; the last two, joined again, are the label
/// (the whole name when it has fewer than three segments).
pub open spec fn tree_parts(name: Seq<char>) -> (Seq<Seq<char>>, Seq<char>) {
    let segs = path_segments(name);
    if segs.len() >= 2 {
        (segs.take(segs.len() - 2), join_two(segs[segs.len() - 2], segs[segs.len() - 1]))
    } else {
        (Seq::empty(), segs[0])
    }
}

/// Splits a type name into its groups and leaf label (see `tree_parts`).
pub fn type_tree_parts(name: &str) -> (r: (Vec<String>, String))
    ensures
        (views_of(r.0@), r.1@) == tree_parts(name@),
{
    let segs = split_path(name);
    proof {
        lemma_path_segments_nonempty(name@);
    }
    let n = segs.len();
    if n >= 2 {
        let mut groups: Vec<String> = Vec::new();
        let mut i: usize = 0;
        while i < n - 2
            invariant
                n == segs@.len(),
                n >= 2,
                i <= n - 2,
                views_of(groups@) == views_of(segs@).take(i as int),
            decreases n - 2 - i,
        {
            let ghost before = views_of(groups@);
            let g = segs[i].clone();
            groups.push(g);
            assert(views_of(groups@) =~= before.push(segs@[i as int]@));
            assert(views_of(segs@).take(i + 1) =~= views_of(segs@).take(i as int).push(views_of(segs@)[i as int]));
            assert(views_of(groups@) =~= views_of(segs@).take(i + 1));
            i = i + 1;
        }
        let mut label: Vec<char> = chars_of(segs[n - 2].as_str());
        label.push(':');
        label.push(':');
        crate::text::extend_chars(&mut label, segs[n - 1].as_str());
        let leaf = string_of(&label);
        proof {
            reveal_strlit("::");
        }
        assert(leaf@ =~= join_two(segs@[n - 2]@, segs@[n - 1]@));
        assert(views_of(segs@)[n - 2] == segs@[n - 2]@);
        assert(views_of(segs@)[n - 1] == segs@[n - 1]@);
        (groups, leaf)
    } else {
        let leaf = segs[0].clone();
        assert(views_of(segs@)[0] == segs@[0]@);
        (Vec::new(), leaf)
    }
}

/// A node of the module tree: its child groups, by name in `String`
/// order, and the entries placed directly in it, in insertion order.
pub struct TypeTreeNode<T> {
    pub children: Vec<(String, TypeTreeNode<T>)>,
    pub entries: Vec<T>,
}

/// The names of a list of child groups.
pub open spec fn child_names<T>(cs: Seq<(String, TypeTreeNode<T>)>) -> Seq<Seq<char>> {
    cs.map_values(|c: (String, TypeTreeNode<T>)| c.0@)
}

impl<T> TypeTreeNode<T> {
    /// Child groups are kept in strictly increasing name order, at every
    /// level.
    pub open spec fn wf(self) -> bool
        decreases self,
    {
        &&& strictly_sorted(child_names(self.children@))
        &&& forall|i: int| 0 <= i < self.children@.len() ==> (#[trigger] self.children@[i]).1.wf()
    }

    /// An empty node.
    pub fn new() -> (n: Self)
        ensures
            n.children@.len() == 0,
            n.entries@.len() == 0,
            n.wf(),
    {
        TypeTreeNode { children: Vec::new(), entries: Vec::new() }
    }
}

/// Every entry of a node and of the groups below it, counted with
/// multiplicity.
pub open spec fn node_entries<T>(n: TypeTreeNode<T>) -> Multiset<T>
    decreases n,
{
    proof {
        assert(decreases_to!(n => n.children));
        assert(decreases_to!(n.children => n.children@));
    }
    n.entries@.to_multiset().add(seq_entries(n.children@))
}

/// Every entry below a list of child groups, counted with multiplicity.
pub open spec fn seq_entries<T>(cs: Seq<(String, TypeTreeNode<T>)>) -> Multiset<T>
    decreases cs,
{
    if cs.len() == 0 {
        Multiset::empty()
    } else {
        proof {
            assert(decreases_to!(cs => cs[cs.len() - 1]));
            assert(decreases_to!(cs[cs.len() - 1] => cs[cs.len() - 1].1));
            assert(cs.drop_last() == cs.subrange(0, cs.len() - 1));
            assert(decreases_to!(cs => cs.subrange(0, cs.len() - 1)));
        }
        seq_entries(cs.drop_last()).add(node_entries(cs[cs.len() - 1].1))
    }
}

proof fn lemma_seq_entries_update<T>(cs: Seq<(String, TypeTreeNode<T>)>, i: int, x: (String, TypeTreeNode<T>), e: T)
    requires
        0 <= i < cs.len(),
        node_entries(x.1) == node_entries(cs[i].1).insert(e),
    ensures
        seq_entries(cs.update(i, x)) == seq_entries(cs).insert(e),
    decreases cs.len(),
{
    broadcast use vstd::multiset::group_multiset_axioms;
    let u = cs.update(i, x);
    if i == cs.len() - 1 {
        assert(u.drop_last() =~= cs.drop_last());
    } else {
        assert(u.drop_last() =~= cs.drop_last().update(i, x));
        lemma_seq_entries_update(cs.drop_last(), i, x, e);
    }
    assert(seq_entries(u) =~= seq_entries(cs).insert(e));
}

proof fn lemma_seq_entries_insert<T>(cs: Seq<(String, TypeTreeNode<T>)>, i: int, x: (String, TypeTreeNode<T>))
    requires
        0 <= i <= cs.len(),
    ensures
        seq_entries(cs.insert(i, x)) == seq_entries(cs).add(node_entries(x.1)),
    decreases cs.len(),
{
    broadcast use vstd::multiset::group_multiset_axioms;
    let u = cs.insert(i, x);
    if i == cs.len() {
        assert(u.drop_last() =~= cs);
    } else {
        assert(u.drop_last() =~= cs.drop_last().insert(i, x));
        lemma_seq_entries_insert(cs.drop_last(), i, x);
    }
    assert(seq_entries(u) =~= seq_entries(cs).add(node_entries(x.1)));
}

/// The child group named `name`, if any.
pub open spec fn child_named<T>(cs: Seq<(String, TypeTreeNode<T>)>, name: Seq<char>) -> Option<TypeTreeNode<T>>
    decreases cs.len(),
{
    if cs.len() == 0 {
        None
    } else if cs.last().0@ == name {
        Some(cs.last().1)
    } else {
        child_named(cs.drop_last(), name)
    }
}

/// The node reached from `node` by following the group names of `path`.
pub open spec fn node_at<T>(node: TypeTreeNode<T>, path: Seq<Seq<char>>) -> Option<TypeTreeNode<T>>
    decreases path.len(),
{
    if path.len() == 0 {
        Some(node)
    } else {
        match child_named(node.children@, path[0]) {
            Some(c) => node_at(c, path.skip(1)),
            None => None,
        }
    }
}

/// The entries placed at `path` (none when no group is there).
pub open spec fn entries_at<T>(node: TypeTreeNode<T>, path: Seq<Seq<char>>) -> Seq<T> {
    match node_at(node, path) {
        Some(n) => n.entries@,
        None => Seq::empty(),
    }
}

/// `p` is a prefix of `q`.
pub open spec fn path_prefix(p: Seq<Seq<char>>, q: Seq<Seq<char>>) -> bool {
    p.len() <= q.len() && q.take(p.len() as int) == p
}

proof fn lemma_sorted_distinct(v: Seq<Seq<char>>, i: int, j: int)
    requires
        strictly_sorted(v),
        0 <= i < v.len(),
        0 <= j < v.len(),
        i != j,
    ensures
        v[i] != v[j],
{
    if i < j {
        assert(text_lt(v[i], v[j]));
    } else {
        assert(text_lt(v[j], v[i]));
    }
    lemma_bytes_lt_irreflexive(utf8(v[i]));
}

proof fn lemma_child_named_at<T>(cs: Seq<(String, TypeTreeNode<T>)>, i: int)
    requires
        strictly_sorted(child_names(cs)),
        0 <= i < cs.len(),
    ensures
        child_named(cs, cs[i].0@) == Some(cs[i].1),
    decreases cs.len(),
{
    if i < cs.len() - 1 {
        assert(child_names(cs)[i] == cs[i].0@);
        assert(child_names(cs)[cs.len() - 1] == cs.last().0@);
        lemma_sorted_distinct(child_names(cs), i, cs.len() - 1);
        assert(child_names(cs.drop_last()) =~= child_names(cs).drop_last());
        assert(cs.drop_last()[i] == cs[i]);
        lemma_child_named_at(cs.drop_last(), i);
    }
}

proof fn lemma_child_named_absent<T>(cs: Seq<(String, TypeTreeNode<T>)>, name: Seq<char>)
    requires
        forall|j: int| 0 <= j < cs.len() ==> (#[trigger] cs[j]).0@ != name,
    ensures
        child_named(cs, name) is None,
    decreases cs.len(),
{
    if cs.len() > 0 {
        assert(cs[cs.len() - 1].0@ != name);
        assert forall|j: int| 0 <= j < cs.drop_last().len() implies (#[trigger] cs.drop_last()[j]).0@ != name by {
            assert(cs.drop_last()[j] == cs[j]);
        }
        lemma_child_named_absent(cs.drop_last(), name);
    }
}

proof fn lemma_empty_node<T>(e: TypeTreeNode<T>, p: Seq<Seq<char>>)
    requires
        e.children@.len() == 0,
        e.entries@.len() == 0,
    ensures
        node_at(e, p) is Some <==> p.len() == 0,
        entries_at(e, p) == Seq::<T>::empty(),
{
    if p.len() > 0 {
        lemma_child_named_absent(e.children@, p[0]);
    }
}

/// Children `new_cs` agree with `cs` on every name but `name`.
pub open spec fn same_children_except<T>(
    cs: Seq<(String, TypeTreeNode<T>)>,
    new_cs: Seq<(String, TypeTreeNode<T>)>,
    name: Seq<char>,
) -> bool {
    forall|x: Seq<char>| x != name ==> child_named(new_cs, x) == child_named(cs, x)
}

/// Places `entry` at the groups `segs[k..]` below `node`, creating the
/// groups that are missing.
fn insert_path<T>(node: &mut TypeTreeNode<T>, segs: &Vec<String>, k: usize, entry: T)
    requires
        old(node).wf(),
        k <= segs@.len(),
    ensures
        final(node).wf(),
        forall|p: Seq<Seq<char>>| #[trigger] node_at(*final(node), p) is Some
            <==> (node_at(*old(node), p) is Some || path_prefix(p, views_of(segs@).skip(k as int))),
        forall|p: Seq<Seq<char>>| #[trigger] entries_at(*final(node), p) == if p == views_of(segs@).skip(k as int) {
            entries_at(*old(node), p).push(entry)
        } else {
            entries_at(*old(node), p)
        },
        node_entries(*final(node)) == node_entries(*old(node)).insert(entry),
    decreases segs@.len() - k,
{
    let ghost rel = views_of(segs@).skip(k as int);
    let ghost old_node = *node;
    if k == segs.len() {
        node.entries.push(entry);
        proof {
            broadcast use vstd::multiset::group_multiset_axioms, vstd::seq_lib::group_to_multiset_ensures;
            assert(node.entries@ == old_node.entries@.push(entry));
            assert(node_entries(*node) =~= node_entries(old_node).insert(entry));
            assert(rel.len() == 0);
            assert forall|p: Seq<Seq<char>>| #[trigger] node_at(*node, p) is Some
                <==> (node_at(old_node, p) is Some || path_prefix(p, rel)) by {
                if p.len() > 0 {
                    assert(node.children@ == old_node.children@);
                } else {
                    assert(p =~= rel.take(0));
                }
            }
            assert forall|p: Seq<Seq<char>>| #[trigger] entries_at(*node, p) == if p == rel {
                entries_at(old_node, p).push(entry)
            } else {
                entries_at(old_node, p)
            } by {
                if p.len() > 0 {
                    assert(node.children@ == old_node.children@);
                } else {
                    assert(p =~= rel);
                }
            }
        }
        return;
    }
    let ghost cs = node.children@;
    let ghost sv = segs@[k as int]@;
    assert(rel[0] == sv);
    assert(rel.skip(1) =~= views_of(segs@).skip(k + 1));
    let mut i: usize = 0;
    while i < node.children.len() && bytes_less(node.children[i].0.as_str().as_bytes(), segs[k].as_str().as_bytes())
        invariant
            node.children@ == cs,
            i <= cs.len(),
            k < segs@.len(),
            sv == segs@[k as int]@,
            forall|j: int| 0 <= j < i ==> text_lt(#[trigger] cs[j].0@, sv),
        decreases cs.len() - i,
    {
        i = i + 1;
    }
    let found = i < node.children.len() && str_eq(node.children[i].0.as_str(), segs[k].as_str());
    proof {
        assert(strictly_sorted(child_names(cs)));
        assert forall|j: int| 0 <= j < cs.len() implies #[trigger] child_names(cs)[j] == cs[j].0@ by {}
        assert forall|j: int| i <= j < cs.len() && !found implies text_lt(sv, #[trigger] cs[j].0@) by {
            assert(!text_lt(cs[i as int].0@, sv));
            assert(cs[i as int].0@ != sv);
            lemma_text_lt_total(cs[i as int].0@, sv);
            if j > i {
                assert(text_lt(child_names(cs)[i as int], child_names(cs)[j]));
                lemma_bytes_lt_transitive(utf8(sv), utf8(cs[i as int].0@), utf8(cs[j].0@));
            }
        }
        assert forall|j: int| 0 <= j < cs.len() && cs[j].0@ == sv implies found && j == i by {
            if j < i {
                lemma_bytes_lt_irreflexive(utf8(sv));
            } else if !found {
                lemma_bytes_lt_irreflexive(utf8(sv));
            } else if j != i {
                lemma_sorted_distinct(child_names(cs), i as int, j);
            }
        }
    }
    let ghost old_child: TypeTreeNode<T>;
    if found {
        let (name, mut child) = node.children.remove(i);
        proof {
            old_child = child;
            assert(child == cs[i as int].1);
        }
        insert_path(&mut child, segs, k + 1, entry);
        node.children.insert(i, (name, child));
        proof {
            assert(node.children@ =~= cs.update(i as int, (cs[i as int].0, child)));
            lemma_seq_entries_update(cs, i as int, (cs[i as int].0, child), entry);
        }
    } else {
        let mut child = TypeTreeNode::new();
        proof {
            old_child = child;
        }
        insert_path(&mut child, segs, k + 1, entry);
        let ghost inserted_child = child;
        let name = segs[k].clone();
        node.children.insert(i, (name, child));
        proof {
            broadcast use vstd::multiset::group_multiset_axioms, vstd::seq_lib::group_to_multiset_ensures,
                vstd::multiset::lemma_multiset_empty_len;
            assert(old_child.entries@.to_multiset().len() == 0);
            assert(node_entries(old_child) =~= Multiset::empty());
            lemma_seq_entries_insert(cs, i as int, (name, inserted_child));
        }
    }
    proof {
        broadcast use vstd::multiset::group_multiset_axioms;
        assert(node.entries@ == old_node.entries@);
        assert(node_entries(*node) =~= node_entries(old_node).insert(entry));
    }
    proof {
        let new_cs = node.children@;
        let new_child = new_cs[i as int].1;
        assert(new_cs[i as int].0@ == sv);
        assert(forall|j: int| 0 <= j < new_cs.len() && j != i ==> new_cs[j] == if found || j < i { cs[j] } else { cs[j - 1] });
        assert(new_cs.len() == if found { cs.len() } else { cs.len() + 1 });
        assert(strictly_sorted(child_names(new_cs))) by {
            assert forall|a: int, b: int| 0 <= a < b < child_names(new_cs).len()
                implies text_lt(#[trigger] child_names(new_cs)[a], #[trigger] child_names(new_cs)[b]) by {
                let ia = if a == i || found || a < i { a } else { a - 1 };
                let ib = if b == i || found || b < i { b } else { b - 1 };
                assert(child_names(new_cs)[a] == new_cs[a].0@);
                assert(child_names(new_cs)[b] == new_cs[b].0@);
                if a != i && b != i {
                    assert(child_names(cs)[ia] == cs[ia].0@);
                    assert(child_names(cs)[ib] == cs[ib].0@);
                    assert(ia < ib);
                } else if found {
                    assert(child_names(cs)[a] == cs[a].0@);
                    assert(child_names(cs)[b] == cs[b].0@);
                    assert(cs[i as int].0@ == sv);
                } else if a == i {
                    assert(b > i);
                    assert(new_cs[b] == cs[b - 1]);
                } else {
                    assert(a < i);
                    assert(new_cs[a] == cs[a]);
                }
            }
        }
        assert forall|j: int| 0 <= j < new_cs.len() implies (#[trigger] new_cs[j]).1.wf() by {
            if j != i {
                let jj = if found || j < i { j } else { j - 1 };
                assert(cs[jj].1.wf());
            }
        }
        assert(node.wf());
        assert(child_named(new_cs, sv) == Some(new_child)) by {
            lemma_child_named_at(new_cs, i as int);
        }
        if found {
            assert(child_named(cs, sv) == Some(old_child)) by {
                lemma_child_named_at(cs, i as int);
            }
        } else {
            assert forall|j: int| 0 <= j < cs.len() implies (#[trigger] cs[j]).0@ != sv by {}
            lemma_child_named_absent(cs, sv);
        }
        assert(same_children_except(cs, new_cs, sv)) by {
            assert forall|x: Seq<char>| x != sv implies child_named(new_cs, x) == child_named(cs, x) by {
                if exists|j: int| 0 <= j < cs.len() && (#[trigger] cs[j]).0@ == x {
                    let j = choose|j: int| 0 <= j < cs.len() && (#[trigger] cs[j]).0@ == x;
                    let jn = if found || j < i { j } else { j + 1 };
                    assert(new_cs[jn] == cs[j]);
                    lemma_child_named_at(cs, j);
                    lemma_child_named_at(new_cs, jn);
                } else {
                    assert forall|jn: int| 0 <= jn < new_cs.len() implies (#[trigger] new_cs[jn]).0@ != x by {
                        if jn != i {
                            let j = if found || jn < i { jn } else { jn - 1 };
                            assert(new_cs[jn] == cs[j]);
                        }
                    }
                    lemma_child_named_absent(new_cs, x);
                    lemma_child_named_absent(cs, x);
                }
            }
        }
        if !found {
            assert forall|q: Seq<Seq<char>>| true implies (#[trigger] node_at(old_child, q) is Some <==> q.len() == 0)
                && entries_at(old_child, q) == Seq::<T>::empty() by {
                lemma_empty_node(old_child, q);
            }
        }
        assert forall|p: Seq<Seq<char>>| #[trigger] node_at(*node, p) is Some
            <==> (node_at(old_node, p) is Some || path_prefix(p, rel)) by {
            if p.len() > 0 {
                if p[0] == sv {
                    assert(node_at(*node, p) == node_at(new_child, p.skip(1)));
                    assert(path_prefix(p, rel) <==> path_prefix(p.skip(1), rel.skip(1))) by {
                        if p.len() <= rel.len() {
                            assert(rel.take(p.len() as int) == p <==> rel.skip(1).take(p.len() - 1) == p.skip(1)) by {
                                if rel.take(p.len() as int) == p {
                                    assert(rel.skip(1).take(p.len() - 1) =~= p.skip(1));
                                }
                                if rel.skip(1).take(p.len() - 1) == p.skip(1) {
                                    assert forall|t: int| 0 <= t < p.len() implies rel.take(p.len() as int)[t] == p[t] by {
                                        if t > 0 {
                                            assert(rel.skip(1).take(p.len() - 1)[t - 1] == p.skip(1)[t - 1]);
                                        }
                                    }
                                    assert(rel.take(p.len() as int) =~= p);
                                }
                            }
                        }
                    }
                    assert(node_at(new_child, p.skip(1)) is Some <==> (node_at(old_child, p.skip(1)) is Some
                        || path_prefix(p.skip(1), rel.skip(1))));
                    if found {
                        assert(node_at(old_node, p) == node_at(old_child, p.skip(1)));
                    } else {
                        assert(node_at(old_node, p) is None);
                        assert(node_at(old_child, p.skip(1)) is Some <==> p.skip(1).len() == 0);
                        if p.skip(1).len() == 0 {
                            assert(rel.skip(1).take(0) =~= p.skip(1));
                        }
                    }
                } else {
                    assert(child_named(new_cs, p[0]) == child_named(cs, p[0]));
                    if path_prefix(p, rel) {
                        assert(rel.take(p.len() as int)[0] == rel[0]);
                    }
                }
            } else {
                assert(p =~= rel.take(0));
            }
        }
        assert forall|p: Seq<Seq<char>>| #[trigger] entries_at(*node, p) == if p == rel {
            entries_at(old_node, p).push(entry)
        } else {
            entries_at(old_node, p)
        } by {
            if p.len() > 0 {
                if p[0] == sv {
                    assert(entries_at(*node, p) == entries_at(new_child, p.skip(1)));
                    assert(p == rel <==> p.skip(1) == rel.skip(1)) by {
                        if p.skip(1) == rel.skip(1) {
                            assert forall|t: int| 0 <= t < p.len() implies p[t] == rel[t] by {
                                if t > 0 {
                                    assert(p.skip(1)[t - 1] == rel.skip(1)[t - 1]);
                                }
                            }
                            assert(p =~= rel);
                        }
                    }
                    if !found {
                        assert(entries_at(old_child, p.skip(1)) == Seq::<T>::empty());
                    }
                } else {
                    assert(child_named(new_cs, p[0]) == child_named(cs, p[0]));
                }
            } else {
                assert(p != rel);
            }
        }
    }
}

/// Places `entry` in the group reached by `group_segments` below `root`,
/// creating the groups on the way that are missing. Afterwards the groups
/// are those there were plus every prefix of `group_segments`, and the
/// entries are as before with `entry` appended at `group_segments`: the
/// tree as a whole holds one more copy of `entry` and nothing else new.
pub fn insert_type_tree_entry<T>(root: &mut TypeTreeNode<T>, group_segments: &Vec<String>, entry: T)
    requires
        old(root).wf(),
    ensures
        final(root).wf(),
        forall|p: Seq<Seq<char>>| #[trigger] node_at(*final(root), p) is Some
            <==> (node_at(*old(root), p) is Some || path_prefix(p, views_of(group_segments@))),
        forall|p: Seq<Seq<char>>| #[trigger] entries_at(*final(root), p) == if p == views_of(group_segments@) {
            entries_at(*old(root), p).push(entry)
        } else {
            entries_at(*old(root), p)
        },
        node_entries(*final(root)) == node_entries(*old(root)).insert(entry),
{
    assert(views_of(group_segments@).skip(0) =~= views_of(group_segments@));
    insert_path(root, group_segments, 0, entry);
}

/// A row of the flattened tree: a group heading or an entry, with its
/// nesting depth.
pub enum TypeTreeRow<T> {
    Group { name: String, depth: usize },
    Entry { value: T, depth: usize },
}

/// One level deeper (depths stop at the largest `usize`).
pub open spec fn deeper(depth: usize) -> usize {
    if depth < usize::MAX { (depth + 1) as usize } else { depth }
}

/// The rows of a node at `depth`: each child group in name order, as its
/// heading followed by its own rows one level deeper, then the node's
/// entries in order.
pub open spec fn tree_rows<T>(node: TypeTreeNode<T>, depth: usize) -> Seq<TypeTreeRow<T>>
    decreases node, 1int,
{
    children_rows(node, node.children@.len() as int, depth) + node.entries@.map_values(
        |e: T| TypeTreeRow::Entry { value: e, depth },
    )
}

/// The rows of the first `n` child groups of `node`.
pub open spec fn children_rows<T>(node: TypeTreeNode<T>, n: int, depth: usize) -> Seq<TypeTreeRow<T>>
    decreases node, 0int, n,
{
    if n <= 0 || n > node.children@.len() {
        Seq::empty()
    } else {
        let c = node.children@[n - 1];
        children_rows(node, n - 1, depth) + seq![TypeTreeRow::Group { name: c.0, depth }] + tree_rows(c.1, deeper(depth))
    }
}

/// The entries among `rows`, counted with multiplicity.
pub open spec fn row_entries<T>(rows: Seq<TypeTreeRow<T>>) -> Multiset<T>
    decreases rows.len(),
{
    if rows.len() == 0 {
        Multiset::empty()
    } else {
        let prev = row_entries(rows.drop_last());
        match rows.last() {
            TypeTreeRow::Entry { value, .. } => prev.insert(value),
            TypeTreeRow::Group { .. } => prev,
        }
    }
}

proof fn lemma_row_entries_concat<T>(a: Seq<TypeTreeRow<T>>, b: Seq<TypeTreeRow<T>>)
    ensures
        row_entries(a + b) == row_entries(a).add(row_entries(b)),
    decreases b.len(),
{
    broadcast use vstd::multiset::group_multiset_axioms;
    if b.len() == 0 {
        assert(a + b =~= a);
    } else {
        assert((a + b).drop_last() =~= a + b.drop_last());
        assert((a + b).last() == b.last());
        lemma_row_entries_concat(a, b.drop_last());
    }
    assert(row_entries(a + b) =~= row_entries(a).add(row_entries(b)));
}

proof fn lemma_entry_rows<T>(es: Seq<T>, depth: usize)
    ensures
        row_entries(es.map_values(|e: T| TypeTreeRow::Entry { value: e, depth })) == es.to_multiset(),
    decreases es.len(),
{
    broadcast use vstd::multiset::group_multiset_axioms, vstd::seq_lib::group_to_multiset_ensures,
        vstd::multiset::lemma_multiset_empty_len;
    let rs = es.map_values(|e: T| TypeTreeRow::Entry { value: e, depth });
    if es.len() == 0 {
        assert(es.to_multiset().len() == 0);
    } else {
        assert(rs.drop_last() =~= es.drop_last().map_values(|e: T| TypeTreeRow::Entry { value: e, depth }));
        lemma_entry_rows(es.drop_last(), depth);
        assert(es.drop_last().push(es.last()) =~= es);
    }
    assert(row_entries(rs) =~= es.to_multiset());
}

/// Flattening keeps exactly the entries of the tree: every entry of every
/// group appears among the rows as often as it is held in the tree.
pub proof fn lemma_tree_rows_entries<T>(node: TypeTreeNode<T>, depth: usize)
    ensures
        row_entries(tree_rows(node, depth)) == node_entries(node),
    decreases node, 1int,
{
    broadcast use vstd::multiset::group_multiset_axioms;
    let es = node.entries@;
    lemma_children_rows_entries(node, node.children@.len() as int, depth);
    lemma_entry_rows(es, depth);
    lemma_row_entries_concat(
        children_rows(node, node.children@.len() as int, depth),
        es.map_values(|e: T| TypeTreeRow::Entry { value: e, depth }),
    );
    assert(node.children@.take(node.children@.len() as int) =~= node.children@);
    assert(row_entries(tree_rows(node, depth)) =~= node_entries(node));
}

proof fn lemma_children_rows_entries<T>(node: TypeTreeNode<T>, n: int, depth: usize)
    requires
        0 <= n <= node.children@.len(),
    ensures
        row_entries(children_rows(node, n, depth)) == seq_entries(node.children@.take(n)),
    decreases node, 0int, n,
{
    broadcast use vstd::multiset::group_multiset_axioms;
    let cs = node.children@.take(n);
    if n == 0 {
        assert(cs.len() == 0);
    } else {
        let c = node.children@[n - 1];
        assert(decreases_to!(node => node.children));
        assert(decreases_to!(node.children => node.children@));
        assert(decreases_to!(node.children@ => node.children@[n - 1]));
        assert(decreases_to!(node.children@[n - 1] => c.1));
        lemma_children_rows_entries(node, n - 1, depth);
        lemma_tree_rows_entries(c.1, deeper(depth));
        let g = seq![TypeTreeRow::Group { name: c.0, depth }];
        lemma_row_entries_concat(children_rows(node, n - 1, depth), g);
        lemma_row_entries_concat(children_rows(node, n - 1, depth) + g, tree_rows(c.1, deeper(depth)));
        assert(g.drop_last() =~= Seq::<TypeTreeRow<T>>::empty());
        assert(row_entries(g.drop_last()) == Multiset::<T>::empty());
        assert(row_entries(g) =~= Multiset::empty());
        assert(cs.drop_last() =~= node.children@.take(n - 1));
        assert(cs[cs.len() - 1] == c);
        assert(row_entries(children_rows(node, n, depth)) =~= seq_entries(cs));
    }
}

fn flatten_into<T>(node: TypeTreeNode<T>, depth: usize, rows: &mut Vec<TypeTreeRow<T>>)
    ensures
        final(rows)@ == old(rows)@ + tree_rows(node, depth),
    decreases node,
{
    let ghost n0 = node;
    let ghost start = rows@;
    let TypeTreeNode { mut children, mut entries } = node;
    let ghost cs = children@;
    let child_count = children.len();
    assert(cs.len() == child_count);
    let mut k: usize = 0;
    while children.len() > 0
        invariant
            n0 == node,
            cs == n0.children@,
            cs.len() <= usize::MAX,
            k <= cs.len(),
            children@ == cs.skip(k as int),
            rows@ == start + children_rows(n0, k as int, depth),
        decreases children@.len(),
    {
        let ghost before = rows@;
        assert(children@[0] == cs[k as int]);
        let (name, child) = children.remove(0);
        proof {
            assert(children@ =~= cs.skip(k + 1));
            assert(decreases_to!(n0 => n0.children));
            assert(decreases_to!(n0.children => n0.children@));
            assert(decreases_to!(n0.children@ => n0.children@[k as int]));
            assert(decreases_to!(n0.children@[k as int] => n0.children@[k as int].1));
            assert(child == n0.children@[k as int].1);
            assert(decreases_to!(node => child));
        }
        let ghost g = TypeTreeRow::<T>::Group { name, depth };
        rows.push(TypeTreeRow::Group { name, depth });
        let d = if depth < usize::MAX { depth + 1 } else { depth };
        flatten_into(child, d, rows);
        proof {
            assert(rows@ =~= before.push(g) + tree_rows(cs[k as int].1, deeper(depth)));
            assert(children_rows(n0, k + 1, depth) == children_rows(n0, k as int, depth)
                + seq![TypeTreeRow::Group { name: cs[k as int].0, depth }] + tree_rows(cs[k as int].1, deeper(depth)));
            assert(rows@ =~= start + children_rows(n0, k + 1, depth));
        }
        k = k + 1;
    }
    assert(k == cs.len());
    let ghost es = entries@;
    let entry_count = entries.len();
    assert(es.len() == entry_count);
    let ghost mid = rows@;
    let mut j: usize = 0;
    while entries.len() > 0
        invariant
            es == n0.entries@,
            es.len() <= usize::MAX,
            j <= es.len(),
            entries@ == es.skip(j as int),
            rows@ == mid + es.take(j as int).map_values(|e: T| TypeTreeRow::Entry { value: e, depth }),
        decreases entries@.len(),
    {
        let ghost before = rows@;
        assert(entries@[0] == es[j as int]);
        let e = entries.remove(0);
        rows.push(TypeTreeRow::Entry { value: e, depth });
        proof {
            assert(entries@ =~= es.skip(j + 1));
            assert(es.take(j + 1).map_values(|e: T| TypeTreeRow::Entry { value: e, depth })
                =~= es.take(j as int).map_values(|e: T| TypeTreeRow::Entry { value: e, depth }).push(
                TypeTreeRow::Entry { value: es[j as int], depth },
            ));
            assert(rows@ =~= mid + es.take(j + 1).map_values(|e: T| TypeTreeRow::Entry { value: e, depth }));
        }
        j = j + 1;
    }
    assert(es.take(j as int) =~= es);
    assert(rows@ =~= start + tree_rows(n0, depth));
}

/// The rows of a whole tree, from depth zero (see `tree_rows`).
pub fn flatten_type_tree<T>(root: TypeTreeNode<T>) -> (rows: Vec<TypeTreeRow<T>>)
    ensures
        rows@ == tree_rows(root, 0),
{
    let mut rows: Vec<TypeTreeRow<T>> = Vec::new();
    flatten_into(root, 0, &mut rows);
    assert(rows@ =~= tree_rows(root, 0));
    rows
}

/// The texts of a list of labelled entries.
pub open spec fn labelled_views<T>(v: Seq<(String, T)>) -> Seq<(Seq<char>, T)> {
    v.map_values(|e: (String, T)| (e.0@, e.1))
}

/// The entries that the named items `items` place at group path `p`, in
/// order, each labelled with its leaf label.
pub open spec fn entries_for<T>(items: Seq<(Seq<char>, T)>, p: Seq<Seq<char>>) -> Seq<(Seq<char>, T)>
    decreases items.len(),
{
    if items.len() == 0 {
        Seq::empty()
    } else {
        let prev = entries_for(items.drop_last(), p);
        let parts = tree_parts(items.last().0);
        if parts.0 == p {
            prev.push((parts.1, items.last().1))
        } else {
            prev
        }
    }
}

/// The group paths that the named items `items` give rise to: the root and
/// every prefix of an item's groups.
pub open spec fn has_group_for<T>(items: Seq<(Seq<char>, T)>, p: Seq<Seq<char>>) -> bool {
    p.len() == 0 || exists|i: int| 0 <= i < items.len() && path_prefix(p, tree_parts(#[trigger] items[i].0).0)
}

/// Groups named items (type name, value) by the modules of their names
/// and flattens the result: the rows are those of a tree whose groups are
/// exactly the module paths of the names and whose entries at each path
/// are the items placed there, in order, labelled with their leaf labels.
/// The rows hold exactly the tree's entries, one entry row per item.
pub fn type_tree_rows<T>(items: Vec<(String, T)>) -> (rows: Vec<TypeTreeRow<(String, T)>>)
    ensures
        exists|t: TypeTreeNode<(String, T)>| {
            &&& t.wf()
            &&& rows@ == tree_rows(t, 0)
            &&& forall|p: Seq<Seq<char>>| #[trigger] node_at(t, p) is Some <==> has_group_for(labelled_views(items@), p)
            &&& forall|p: Seq<Seq<char>>| #[trigger] labelled_views(entries_at(t, p)) == entries_for(labelled_views(items@), p)
            &&& row_entries(rows@) == node_entries(t)
        },
        row_entries(rows@).len() == items@.len(),
{
    let ghost iv = labelled_views(items@);
    let mut root: TypeTreeNode<(String, T)> = TypeTreeNode::new();
    let mut rest = items;
    let mut k: usize = 0;
    let item_count = rest.len();
    proof {
        assert forall|p: Seq<Seq<char>>| #[trigger] node_at(root, p) is Some <==> has_group_for(iv.take(0), p) by {
            lemma_empty_node(root, p);
        }
        assert forall|p: Seq<Seq<char>>| #[trigger] labelled_views(entries_at(root, p)) == entries_for(iv.take(0), p) by {
            lemma_empty_node(root, p);
            assert(labelled_views(entries_at(root, p)) =~= Seq::<(Seq<char>, T)>::empty());
        }
        broadcast use vstd::multiset::group_multiset_axioms, vstd::seq_lib::group_to_multiset_ensures;
        assert(root.entries@.to_multiset().len() == 0);
        assert(node_entries(root).len() == 0);
    }
    while rest.len() > 0
        invariant
            iv == labelled_views(items@),
            iv.len() == item_count,
            k <= iv.len(),
            labelled_views(rest@) == iv.skip(k as int),
            root.wf(),
            forall|p: Seq<Seq<char>>| #[trigger] node_at(root, p) is Some <==> has_group_for(iv.take(k as int), p),
            forall|p: Seq<Seq<char>>| #[trigger] labelled_views(entries_at(root, p)) == entries_for(iv.take(k as int), p),
            node_entries(root).len() == k,
        decreases rest@.len(),
    {
        let ghost old_root = root;
        let ghost old_rest = rest@;
        assert(labelled_views(old_rest).len() == old_rest.len());
        assert(k < iv.len());
        assert(iv.skip(k as int)[0] == iv[k as int]);
        assert(labelled_views(old_rest)[0] == (old_rest[0].0@, old_rest[0].1));
        let (name, value) = rest.remove(0);
        proof {
            assert(rest@ =~= old_rest.skip(1));
            assert(labelled_views(rest@) =~= labelled_views(old_rest).skip(1));
            assert(iv.skip(k as int).skip(1) =~= iv.skip(k + 1));
        }
        let (groups, leaf) = type_tree_parts(name.as_str());
        let ghost entry = (leaf, value);
        insert_type_tree_entry(&mut root, &groups, (leaf, value));
        proof {
            let pre = iv.take(k as int);
            let post = iv.take(k + 1);
            assert(post.drop_last() =~= pre);
            assert(post.last() == iv[k as int]);
            assert(iv[k as int].0 == name@);
            broadcast use vstd::multiset::lemma_insert_len;
            assert(node_entries(root).len() == k + 1);
            let gv = views_of(groups@);
            assert(gv == tree_parts(name@).0);
            assert forall|p: Seq<Seq<char>>| #[trigger] node_at(root, p) is Some <==> has_group_for(post, p) by {
                if p.len() > 0 {
                    if has_group_for(post, p) {
                        let i = choose|i: int| 0 <= i < post.len() && path_prefix(p, tree_parts(#[trigger] post[i].0).0);
                        if i < k {
                            assert(pre[i] == post[i]);
                            assert(has_group_for(pre, p));
                        }
                    }
                    if has_group_for(pre, p) {
                        let i = choose|i: int| 0 <= i < pre.len() && path_prefix(p, tree_parts(#[trigger] pre[i].0).0);
                        assert(post[i] == pre[i]);
                    }
                    if path_prefix(p, gv) {
                        assert(path_prefix(p, tree_parts(post[k as int].0).0));
                    }
                }
            }
            assert forall|p: Seq<Seq<char>>| #[trigger] labelled_views(entries_at(root, p)) == entries_for(post, p) by {
                if p == gv {
                    assert(labelled_views(entries_at(old_root, p).push(entry)) =~= labelled_views(entries_at(old_root, p)).push(
                        (entry.0@, entry.1),
                    ));
                }
            }
        }
        k = k + 1;
    }
    assert(iv.take(k as int) =~= iv);
    let rows = flatten_type_tree(root);
    proof {
        lemma_tree_rows_entries(root, 0);
    }
    rows
}

} // verus!
