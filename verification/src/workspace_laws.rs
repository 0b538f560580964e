//! What paths lead to, and how they are told.

use vstd::prelude::*;

use crate::strings::{joined, lacks, lemma_joined_splits_back, lemma_split_first, split_on};
use crate::text::display_laws::{are_alike, lemma_alike_is_same};
use crate::text::path::PathCase;
use crate::workspace::{
    all_names, displayed, first_marked, is_absolute, is_inside, is_normal, led,
    lemma_names_lead_inside, normal, part_text, part_texts, parts_of, path_text, piece_parts,
    same_part, step, PartView,
};

verus! {

broadcast use vstd::seq::group_seq_axioms;

/// The way behind steps goes on from where they lead.
proof fn lemma_goes_on(a: Seq<PartView>, x: Seq<PartView>, b: Seq<PartView>)
    requires
        normal(a) == normal(x),
    ensures
        normal(a + b) == normal(x + b),
    decreases b.len(),
{
    if b.len() == 0 {
        assert(a + b =~= a);
        assert(x + b =~= x);
    } else {
        lemma_goes_on(a, x, b.drop_last());
        assert((a + b).drop_last() =~= a + b.drop_last());
        assert((x + b).drop_last() =~= x + b.drop_last());
    }
}

/// A `.` on the way leads nowhere, and a `..` takes back the name before it; from the root it leads
/// nowhere either.
pub proof fn lemma_detours_lead_nowhere(
    front: Seq<PartView>,
    name: Seq<char>,
    back: Seq<PartView>,
)
    ensures
        normal(front + seq![PartView::Here] + back) == normal(front + back),
        normal(front + seq![PartView::Name(name), PartView::Up] + back) == normal(front + back),
        normal(seq![PartView::Root, PartView::Up] + back) == normal(seq![PartView::Root] + back),
{
    let a = front + seq![PartView::Here];
    assert(a.drop_last() =~= front);
    assert(normal(a) == normal(front));
    lemma_goes_on(a, front, back);
    let b = front + seq![PartView::Name(name)];
    let c = front + seq![PartView::Name(name), PartView::Up];
    assert(b.drop_last() =~= front);
    assert(c.drop_last() =~= b);
    assert(normal(b) == normal(front).push(PartView::Name(name)));
    assert(normal(c) == normal(b).drop_last());
    assert(normal(c) =~= normal(front));
    lemma_goes_on(c, front, back);
    let r = seq![PartView::Root];
    let u = seq![PartView::Root, PartView::Up];
    assert(r.drop_last() =~= Seq::<PartView>::empty());
    assert(normal(r.drop_last()) =~= Seq::<PartView>::empty());
    assert(normal(r) =~= r);
    assert(u.drop_last() =~= r);
    assert(normal(u) =~= normal(r));
    lemma_goes_on(u, r, back);
}

/// Whether a text can be the name of a step: it is not empty, has no slash, and is neither `.` nor
/// `..`.
pub open spec fn is_name(s: Seq<char>) -> bool {
    s.len() > 0 && lacks(s, '/') && s != "."@ && s != ".."@
}

/// Steps of names.
pub open spec fn names(l: Seq<Seq<char>>) -> Seq<PartView> {
    Seq::new(l.len(), |i: int| PartView::Name(l[i]))
}

proof fn lemma_name_pieces(l: Seq<Seq<char>>, n: nat)
    requires
        n <= l.len(),
        forall|i: int| 0 <= i < l.len() ==> is_name(#[trigger] l[i]),
    ensures
        piece_parts(l, n) == names(l).take(n as int),
    decreases n,
{
    if n > 0 {
        lemma_name_pieces(l, (n - 1) as nat);
        assert(is_name(l[n - 1]));
        assert(names(l).take(n as int) =~= names(l).take(n - 1) + seq![PartView::Name(l[n - 1])]);
    } else {
        assert(names(l).take(0) =~= Seq::<PartView>::empty());
    }
}

/// Names with slashes between them are read as the steps that they are, and these are written so
/// again.
pub proof fn lemma_names_are_steps(l: Seq<Seq<char>>)
    requires
        l.len() > 0,
        forall|i: int| 0 <= i < l.len() ==> is_name(#[trigger] l[i]),
    ensures
        !is_absolute(joined(l, "/"@)),
        parts_of(joined(l, "/"@)) == names(l),
        path_text(names(l)) == joined(l, "/"@),
{
    reveal_strlit("/");
    assert("/"@ =~= seq!['/']);
    assert forall|i: int| 0 <= i < l.len() implies lacks(#[trigger] l[i], '/') by {
        assert(is_name(l[i]));
    }
    lemma_joined_splits_back(l, '/');
    lemma_first_of_joined(l, "/"@);
    assert(is_name(l[0]));
    lemma_name_pieces(l, l.len());
    assert(names(l).take(l.len() as int) =~= names(l));
    assert(part_texts(names(l)) =~= l);
}

proof fn lemma_first_of_joined(l: Seq<Seq<char>>, separator: Seq<char>)
    requires
        l.len() > 0,
        l[0].len() > 0,
    ensures
        joined(l, separator).len() > 0,
        joined(l, separator)[0] == l[0][0],
    decreases l.len(),
{
    if l.len() > 1 {
        lemma_first_of_joined(l.drop_last(), separator);
    }
}

/// A file in the workspace is told by the way to it from there, and that text leads back to it; the
/// workspace itself is told as a dot.
pub proof fn lemma_told_path_leads_back(
    root: Seq<PartView>,
    case: PathCase,
    l: Seq<Seq<char>>,
    text: Seq<char>,
    home: Option<Seq<char>>,
)
    requires
        is_normal(root),
        l.len() > 0,
        forall|i: int| 0 <= i < l.len() ==> is_name(#[trigger] l[i]),
    ensures
        displayed(root, case, root + names(l), text, home) == joined(l, "/"@),
        normal(led(root, displayed(root, case, root + names(l), text, home))) == root + names(l),
        displayed(root, case, root, text, home) == "."@,
{
    let path = root + names(l);
    assert(all_names(names(l)));
    lemma_names_lead_inside(root, names(l), case);
    assert(path.skip(root.len() as int) =~= names(l));
    lemma_names_are_steps(l);
    assert(part_texts(names(l)) =~= l);
    let none = Seq::<PartView>::empty();
    assert(all_names(none));
    lemma_names_lead_inside(root, none, case);
    assert(root + none =~= root);
}

/// Where names are told apart by their case, a path is in a directory just where it starts with the
/// steps to it.
pub proof fn lemma_inside_is_below(path: Seq<PartView>, root: Seq<PartView>)
    ensures
        is_inside(path, root, PathCase::Sensitive) <==> root.len() <= path.len() && path.take(
            root.len() as int,
        ) == root,
{
    if is_inside(path, root, PathCase::Sensitive) {
        assert forall|i: int| 0 <= i < root.len() implies path[i] == root[i] by {
            assert(same_part(root[i], path[i], PathCase::Sensitive));
        }
        assert(path.take(root.len() as int) =~= root);
    }
    if root.len() <= path.len() && path.take(root.len() as int) == root {
        assert forall|i: int| 0 <= i < root.len() implies same_part(
            #[trigger] root[i],
            path[i],
            PathCase::Sensitive,
        ) by {
            assert(path.take(root.len() as int)[i] == path[i]);
        }
    }
}

/// The workspace is the first directory on the way up that is marked, and else the first of all.
pub proof fn lemma_first_mark_counts(marked: Seq<bool>, i: int)
    requires
        0 <= i,
    ensures
        ({
            let k = first_marked(marked, i);
            ||| i <= k < marked.len() && marked[k] && forall|j: int| i <= j < k ==> !#[trigger] marked[j]
            ||| k == 0 && forall|j: int| i <= j < marked.len() ==> !#[trigger] marked[j]
        }),
    decreases marked.len() - i,
{
    if i < marked.len() && !marked[i] {
        lemma_first_mark_counts(marked, i + 1);
        let k = first_marked(marked, i + 1);
        if i + 1 <= k < marked.len() && marked[k] && forall|j: int|
            i + 1 <= j < k ==> !#[trigger] marked[j] {
            assert forall|j: int| i <= j < k implies !#[trigger] marked[j] by {}
        } else {
            assert forall|j: int| i <= j < marked.len() implies !#[trigger] marked[j] by {}
        }
    }
}

proof fn lemma_pieces_behind_root(l: Seq<Seq<char>>, n: nat)
    requires
        n <= l.len(),
        forall|i: int| 0 <= i < l.len() ==> is_name(#[trigger] l[i]),
    ensures
        piece_parts(seq![Seq::<char>::empty()] + l, n + 1) == names(l).take(n as int),
    decreases n,
{
    let pieces = seq![Seq::<char>::empty()] + l;
    if n > 0 {
        lemma_pieces_behind_root(l, (n - 1) as nat);
        assert(is_name(l[n - 1]));
        assert(pieces[n as int] == l[n - 1]);
        assert(names(l).take(n as int) =~= names(l).take(n - 1) + seq![PartView::Name(l[n - 1])]);
    } else {
        assert(pieces[0].len() == 0);
        assert(piece_parts(pieces, 0) =~= Seq::<PartView>::empty());
        assert(names(l).take(0) =~= Seq::<PartView>::empty());
        assert(piece_parts(pieces, 1) =~= Seq::<PartView>::empty());
    }
}

/// A path from the root is written with a slash in front, and read as the same steps again.
pub proof fn lemma_path_from_root_is_read_back(l: Seq<Seq<char>>)
    requires
        l.len() > 0,
        forall|i: int| 0 <= i < l.len() ==> is_name(#[trigger] l[i]),
    ensures
        path_text(seq![PartView::Root] + names(l)) == seq!['/'] + joined(l, "/"@),
        is_absolute(path_text(seq![PartView::Root] + names(l))),
        parts_of(path_text(seq![PartView::Root] + names(l))) == seq![PartView::Root] + names(l),
{
    let path = seq![PartView::Root] + names(l);
    lemma_names_are_steps(l);
    reveal_strlit("/");
    assert("/"@ =~= seq!['/']);
    assert(path.skip(1) =~= names(l));
    assert(path_text(path) == seq!['/'] + joined(l, "/"@)) by {
        assert(part_texts(names(l)) =~= l);
    }
    let raw = path_text(path);
    let rest = joined(l, "/"@);
    assert forall|i: int| 0 <= i < l.len() implies lacks(#[trigger] l[i], '/') by {
        assert(is_name(l[i]));
    }
    lemma_joined_splits_back(l, '/');
    assert(split_on(rest, '/') == l);
    lemma_split_first(Seq::empty(), rest, '/');
    assert(Seq::<char>::empty().push('/') + rest =~= raw);
    lemma_pieces_behind_root(l, l.len());
    assert(names(l).take(l.len() as int) =~= names(l));
}

/// Where the case of letters makes no difference, a path is inside a directory whose names are the same
/// but for that; where it makes one, only inside one whose names are the same.
pub proof fn lemma_inside_in_other_letters(
    a: Seq<Seq<char>>,
    b: Seq<Seq<char>>,
    rest: Seq<PartView>,
)
    requires
        a.len() == b.len(),
        forall|i: int| 0 <= i < a.len() ==> are_alike(#[trigger] a[i], b[i]),
    ensures
        is_inside(names(b) + rest, names(a), PathCase::Insensitive),
        is_inside(names(b) + rest, names(a), PathCase::Sensitive) <==> a == b,
{
    let path = names(b) + rest;
    let root = names(a);
    assert forall|i: int| 0 <= i < root.len() implies same_part(
        #[trigger] root[i],
        path[i],
        PathCase::Insensitive,
    ) by {
        assert(are_alike(a[i], b[i]));
        lemma_alike_is_same(a[i], b[i]);
        assert(part_text(root[i]) == a[i] && part_text(path[i]) == b[i]);
    }
    if is_inside(path, root, PathCase::Sensitive) {
        assert forall|i: int| 0 <= i < a.len() implies a[i] == b[i] by {
            assert(same_part(root[i], path[i], PathCase::Sensitive));
        }
        assert(a =~= b);
    }
}

} // verus!
