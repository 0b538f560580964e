//! What a listing tells.

use vstd::prelude::*;

use crate::strings::{dec, joined};
use crate::tools::ls::{
    count_in, dirs, entry_line, entry_lines, indent, listing, offered, starts_with, EntryView,
    WalkOptions, WalkView,
};

verus! {

broadcast use vstd::seq::group_seq_axioms;

/// An entry as it is shown: two spaces for each directory that it is in below the first, its name, and
/// a slash behind that of a directory.
pub open spec fn entry_shown(e: EntryView) -> Seq<char> {
    let name = if e.relative.len() > 0 {
        e.relative.last()
    } else {
        Seq::empty()
    };
    Seq::new(
        if e.depth > 1 {
            (2 * (e.depth - 1)) as nat
        } else {
            0
        },
        |i: int| ' ',
    ) + name + (if e.is_dir {
        seq!['/']
    } else {
        Seq::empty()
    }) + "\n"@
}

proof fn lemma_indent(n: nat)
    ensures
        indent(n) == Seq::new(2 * n, |i: int| ' '),
    decreases n,
{
    if n > 0 {
        lemma_indent((n - 1) as nat);
        reveal_strlit("  ");
        assert("  "@ =~= seq![' ', ' ']);
        assert(indent(n) =~= Seq::new(2 * n, |i: int| ' '));
    } else {
        assert(indent(0) =~= Seq::new(0, |i: int| ' '));
    }
}

proof fn lemma_entry_lines(l: Seq<EntryView>)
    ensures
        entry_lines(l) == joined(Seq::new(l.len(), |i: int| entry_shown(l[i])), Seq::empty()),
    decreases l.len(),
{
    let parts = Seq::new(l.len(), |i: int| entry_shown(l[i]));
    if l.len() > 0 {
        let e = l.last();
        lemma_entry_lines(l.drop_last());
        assert(parts.drop_last() =~= Seq::new(
            l.drop_last().len(),
            |i: int| entry_shown(l.drop_last()[i]),
        ));
        lemma_indent(
            if e.depth > 0 {
                (e.depth - 1) as nat
            } else {
                0
            },
        );
        reveal_strlit("/");
        reveal_strlit("");
        assert("/"@ =~= seq!['/']);
        assert(""@ =~= Seq::<char>::empty());
        assert(entry_line(e) =~= entry_shown(e));
        assert(parts.last() == entry_shown(e));
        assert(joined(parts, Seq::empty()) =~= joined(parts.drop_last(), Seq::empty()) + parts.last());
    }
}

proof fn lemma_dirs(l: Seq<EntryView>)
    ensures
        dirs(l) == l.filter(|e: EntryView| e.is_dir).len(),
        l.len() - dirs(l) == l.filter(|e: EntryView| !e.is_dir).len(),
    decreases l.len(),
{
    reveal(Seq::filter);
    if l.len() > 0 {
        lemma_dirs(l.drop_last());
    }
}

/// A listing has a line for each entry, in their order, under the name of the directory; then it tells
/// how many of them are files and how many are directories, and before that, where it is so, that
/// entries were left out.
pub proof fn lemma_each_entry_is_listed(root: Seq<char>, l: Seq<EntryView>, truncated: bool)
    ensures
        l.len() == 0 ==> listing(root, l, truncated) == root + "/\n"@ + "(空目录)"@,
        l.len() > 0 ==> listing(root, l, truncated) == root + "/\n"@ + joined(
            Seq::new(l.len(), |i: int| entry_shown(l[i])),
            Seq::empty(),
        ) + (if truncated {
            "\n(已截断：最多显示 100 条，每个目录最多展开若干条子项)\n"@
        } else {
            Seq::empty()
        }) + "\n"@ + dec(l.filter(|e: EntryView| !e.is_dir).len()) + " 个文件，"@ + dec(
            l.filter(|e: EntryView| e.is_dir).len(),
        ) + " 个目录"@,
{
    lemma_entry_lines(l);
    lemma_dirs(l);
}

/// How many entries a directory has is how many of them have it as their parent.
pub proof fn lemma_entries_are_counted(l: Seq<EntryView>, parent: Seq<Seq<char>>)
    ensures
        count_in(l, parent) == l.filter(|e: EntryView| e.relative.drop_last() == parent).len(),
    decreases l.len(),
{
    reveal(Seq::filter);
    if l.len() > 0 {
        lemma_entries_are_counted(l.drop_last(), parent);
    }
}

/// A walk goes on until it has as many entries as it may. An entry is taken where the walk goes on, its
/// directory has fewer than it may have, and no directory on the way to it was left out; else the
/// entries stay as they were, and a directory that its own directory has no room for is left out with
/// all that is in it.
pub proof fn lemma_entry_is_taken(w: WalkView, o: WalkOptions, e: EntryView)
    requires
        e.relative.len() > 0,
    ensures
        ({
            let (goes_on, after) = offered(w, o, e);
            let parent = e.relative.drop_last();
            let beside = w.entries.filter(|x: EntryView| x.relative.drop_last() == parent).len();
            let left_out = exists|i: int|
                0 <= i < w.skipped.len() && (#[trigger] w.skipped[i]).is_prefix_of(e.relative);
            &&& goes_on <==> w.entries.len() < o.max_entries
            &&& goes_on && !left_out && beside < o.per_dir_limit ==> after == WalkView {
                entries: w.entries.push(e),
                ..w
            }
            &&& !(goes_on && !left_out && beside < o.per_dir_limit) ==> after.entries == w.entries
            &&& goes_on && !left_out && beside >= o.per_dir_limit ==> after.truncated
                && after.skipped == if e.is_dir {
                w.skipped.push(e.relative)
            } else {
                w.skipped
            }
            &&& goes_on && left_out ==> after == w
            &&& !goes_on ==> after.truncated
        }),
{
    lemma_entries_are_counted(w.entries, e.relative.drop_last());
    assert forall|i: int| 0 <= i < w.skipped.len() implies (#[trigger] w.skipped[i]).is_prefix_of(
        e.relative,
    ) == starts_with(e.relative, w.skipped[i]) by {
        let front = w.skipped[i];
        if front.len() <= e.relative.len() {
            assert(e.relative.take(front.len() as int) =~= e.relative.subrange(
                0,
                front.len() as int,
            ));
        }
    }
}

/// The directory itself is no entry of its own.
pub proof fn lemma_root_is_no_entry(w: WalkView, o: WalkOptions, e: EntryView)
    requires
        e.relative.len() == 0,
    ensures
        offered(w, o, e) == (true, w),
{
}

} // verus!
