//! What a page of a search tells.

use vstd::prelude::*;

use crate::strings::{
    dec, holds, joined, lemma_holds, lemma_holds_within, lemma_joined_holds, texts,
};
use crate::text::grep::{FileView, LineMatchView, MatcherKind};
use crate::tools::grep::{
    file_block, file_blocks, lines_behind, match_lines, matches_within, narrowed, narrowed_all,
    notes_of, nothing_text, page_files, page_header, page_text, ranges_for, restricted, shown_file,
    total_cap, window, Remarks,
};
use crate::tools::selector::LineRange;
use crate::tools::targets::TargetView;
use crate::workspace::{part_texts, Workspace};

verus! {

broadcast use vstd::seq::group_seq_axioms;

// The lines that count

/// Whether a range has a line in it.
pub open spec fn has_line(r: LineRange, n: u64) -> bool {
    r.start <= n && match r.end {
        Some(e) => n <= e,
        None => n <= usize::MAX,
    }
}

/// Whether a match is in one of several ranges.
pub open spec fn is_within(m: LineMatchView, ranges: Seq<LineRange>) -> bool {
    exists|i: int| 0 <= i < ranges.len() && has_line(#[trigger] ranges[i], m.line_number)
}

proof fn lemma_within_filters(l: Seq<LineMatchView>, ranges: Seq<LineRange>)
    ensures
        matches_within(l, ranges) == l.filter(|m: LineMatchView| is_within(m, ranges)),
    decreases l.len(),
{
    reveal(Seq::filter);
    if l.len() > 0 {
        lemma_within_filters(l.drop_last(), ranges);
        let m = l.last();
        let kept = m.line_number <= usize::MAX && crate::tools::selector::covers(
            ranges,
            m.line_number as nat,
        );
        if kept {
            let i = choose|i: int|
                0 <= i < ranges.len() && crate::tools::selector::in_range(
                    #[trigger] ranges[i],
                    m.line_number as nat,
                );
            assert(has_line(ranges[i], m.line_number));
        }
        if is_within(m, ranges) {
            let i = choose|i: int| 0 <= i < ranges.len() && has_line(#[trigger] ranges[i], m.line_number);
            assert(crate::tools::selector::in_range(ranges[i], m.line_number as nat));
        }
        assert(kept == is_within(m, ranges));
    }
}

/// Whether a target says which lines of a file count.
pub open spec fn is_about(t: TargetView, path: Seq<Seq<char>>) -> bool {
    t.ranges is Some && part_texts(t.path) == path
}

proof fn lemma_last_counts(found: Seq<TargetView>, path: Seq<Seq<char>>)
    ensures
        match ranges_for(found, path) {
            Some(ranges) => exists|i: int|
                0 <= i < found.len() && is_about(#[trigger] found[i], path) && found[i].ranges == Some(
                    ranges,
                ) && forall|j: int| i < j < found.len() ==> !is_about(#[trigger] found[j], path),
            None => forall|i: int| 0 <= i < found.len() ==> !is_about(#[trigger] found[i], path),
        },
    decreases found.len(),
{
    if found.len() > 0 {
        let front = found.drop_last();
        lemma_last_counts(front, path);
        if is_about(found.last(), path) {
            assert(is_about(found[found.len() - 1], path));
        } else {
            match ranges_for(front, path) {
                Some(ranges) => {
                    let i = choose|i: int|
                        0 <= i < front.len() && is_about(#[trigger] front[i], path)
                            && front[i].ranges == Some(ranges) && forall|j: int|
                            i < j < front.len() ==> !is_about(#[trigger] front[j], path);
                    assert(is_about(found[i], path));
                    assert forall|j: int| i < j < found.len() implies !is_about(
                        #[trigger] found[j],
                        path,
                    ) by {
                        if j < front.len() {
                            assert(front[j] == found[j]);
                        }
                    }
                },
                None => {
                    assert forall|j: int| 0 <= j < found.len() implies !is_about(
                        #[trigger] found[j],
                        path,
                    ) by {
                        if j < front.len() {
                            assert(front[j] == found[j]);
                        }
                    }
                },
            }
        }
    }
}

/// Of a file for which a target says which lines count, just the matches in those lines are left, in
/// their order; the last such target decides. Any other file stays as it is.
pub proof fn lemma_what_is_left_of_a_file(f: FileView, found: Seq<TargetView>)
    ensures
        narrowed(f, found).path == f.path,
        narrowed(f, found).truncated == f.truncated,
        (forall|i: int| 0 <= i < found.len() ==> !is_about(#[trigger] found[i], f.path)) ==> narrowed(
            f,
            found,
        ) == f,
        forall|i: int|
            0 <= i < found.len() && is_about(#[trigger] found[i], f.path) && (forall|j: int|
                i < j < found.len() ==> !is_about(#[trigger] found[j], f.path)) ==> narrowed(
                f,
                found,
            ).matches == f.matches.filter(|m: LineMatchView| is_within(m, found[i].ranges->0)),
{
    lemma_last_counts(found, f.path);
    assert forall|i: int|
        0 <= i < found.len() && is_about(#[trigger] found[i], f.path) && (forall|j: int|
            i < j < found.len() ==> !is_about(#[trigger] found[j], f.path)) implies narrowed(
        f,
        found,
    ).matches == f.matches.filter(|m: LineMatchView| is_within(m, found[i].ranges->0)) by {
        assert(ranges_for(found, f.path) is Some);
        let ranges = ranges_for(found, f.path)->0;
        let k = choose|k: int|
            0 <= k < found.len() && is_about(#[trigger] found[k], f.path) && found[k].ranges == Some(
                ranges,
            ) && forall|j: int| k < j < found.len() ==> !is_about(#[trigger] found[j], f.path);
        assert(k == i);
        lemma_within_filters(f.matches, ranges);
    }
}

proof fn lemma_narrowed_filters(l: Seq<FileView>, found: Seq<TargetView>)
    ensures
        narrowed_all(l, found) == Seq::new(l.len(), |i: int| narrowed(l[i], found)).filter(
            |f: FileView| f.matches.len() > 0,
        ),
    decreases l.len(),
{
    reveal(Seq::filter);
    let all = Seq::new(l.len(), |i: int| narrowed(l[i], found));
    if l.len() > 0 {
        lemma_narrowed_filters(l.drop_last(), found);
        assert(all.drop_last() =~= Seq::new(
            l.drop_last().len(),
            |i: int| narrowed(l.drop_last()[i], found),
        ));
        assert(all.last() == narrowed(l.last(), found));
    }
}

/// Where a target says which lines count, the files that are left are those with a match in such a
/// line, in their order; else all of them.
pub proof fn lemma_files_that_are_left(l: Seq<FileView>, found: Seq<TargetView>)
    ensures
        (forall|i: int| 0 <= i < found.len() ==> (#[trigger] found[i]).ranges is None) ==> restricted(
            l,
            found,
        ) == l,
        (exists|i: int| 0 <= i < found.len() && (#[trigger] found[i]).ranges is Some) ==> restricted(
            l,
            found,
        ) == Seq::new(l.len(), |i: int| narrowed(l[i], found)).filter(
            |f: FileView| f.matches.len() > 0,
        ),
{
    lemma_narrowed_filters(l, found);
}

// The page

/// A match as a page shows it: its line under the number of that line.
pub open spec fn match_shown(m: LineMatchView) -> Seq<char> {
    "  "@ + dec(m.line_number as nat) + ": "@ + m.line + "\n"@
}

/// A file as a page shows it: its name, its matches in their order, and an empty line.
pub open spec fn file_shown(workspace: &Workspace, home: Option<Seq<char>>, f: FileView) -> Seq<char> {
    shown_file(workspace, home, f.path) + "\n"@ + joined(
        Seq::new(f.matches.len(), |i: int| match_shown(f.matches[i])),
        Seq::empty(),
    ) + (if f.truncated {
        "  …该文件命中过多，已截断\n"@
    } else {
        Seq::empty()
    }) + "\n"@
}

proof fn lemma_match_lines(l: Seq<LineMatchView>)
    ensures
        match_lines(l) == joined(Seq::new(l.len(), |i: int| match_shown(l[i])), Seq::empty()),
    decreases l.len(),
{
    let parts = Seq::new(l.len(), |i: int| match_shown(l[i]));
    if l.len() > 0 {
        lemma_match_lines(l.drop_last());
        assert(parts.drop_last() =~= Seq::new(
            l.drop_last().len(),
            |i: int| match_shown(l.drop_last()[i]),
        ));
        assert(match_lines(l) =~= match_lines(l.drop_last()) + match_shown(l.last()));
        assert(parts.last() == match_shown(l.last()));
        assert(joined(parts, Seq::empty()) =~= joined(parts.drop_last(), Seq::empty()) + parts.last());
    }
}

proof fn lemma_file_blocks(workspace: &Workspace, home: Option<Seq<char>>, l: Seq<FileView>)
    ensures
        file_blocks(workspace, home, l) == joined(
            Seq::new(l.len(), |i: int| file_shown(workspace, home, l[i])),
            Seq::empty(),
        ),
    decreases l.len(),
{
    let parts = Seq::new(l.len(), |i: int| file_shown(workspace, home, l[i]));
    if l.len() > 0 {
        lemma_file_blocks(workspace, home, l.drop_last());
        lemma_match_lines(l.last().matches);
        assert(parts.drop_last() =~= Seq::new(
            l.drop_last().len(),
            |i: int| file_shown(workspace, home, l.drop_last()[i]),
        ));
        assert(file_block(workspace, home, l.last()) == file_shown(workspace, home, l.last()));
        assert(parts.last() == file_shown(workspace, home, l.last()));
        assert(joined(parts, Seq::empty()) =~= joined(parts.drop_last(), Seq::empty()) + parts.last());
    }
}

/// A page shows each file behind those that were skipped, in their order, and then which of how many
/// they are and, where there may be more, how many to skip for these.
pub proof fn lemma_page_shows_each_file(
    workspace: &Workspace,
    home: Option<Seq<char>>,
    l: Seq<FileView>,
    skip: nat,
    window_files: nat,
    said: Seq<Seq<char>>,
)
    requires
        skip < l.len(),
    ensures
        page_text(workspace, home, l, skip, window_files, said) == joined(
            Seq::new(
                (l.len() - skip) as nat,
                |i: int| file_shown(workspace, home, l[skip + i]),
            ),
            Seq::empty(),
        ) + ("显示文件 "@ + dec(skip + 1) + "-"@ + dec(l.len()) + " / 共 "@ + dec(l.len()) + if l.len()
            >= window_files {
            "+"@ + " 个文件"@ + "。用 skip="@ + dec(l.len()) + " 翻下一页"@
        } else {
            " 个文件"@ + "。"@
        }) + joined(Seq::new(said.len(), |i: int| "\n"@ + said[i]), Seq::empty()),
{
    let page = page_files(l, skip);
    lemma_file_blocks(workspace, home, page);
    assert(Seq::new(page.len(), |i: int| file_shown(workspace, home, page[i])) =~= Seq::new(
        (l.len() - skip) as nat,
        |i: int| file_shown(workspace, home, l[skip + i]),
    ));
    reveal_strlit("");
    let want = "显示文件 "@ + dec(skip + 1) + "-"@ + dec(l.len()) + " / 共 "@ + dec(l.len()) + if l.len()
        >= window_files {
        "+"@ + " 个文件"@ + "。用 skip="@ + dec(l.len()) + " 翻下一页"@
    } else {
        " 个文件"@ + "。"@
    };
    assert(page_header(l.len(), skip, window_files) =~= want);
    lemma_behind(said);
}

proof fn lemma_behind(l: Seq<Seq<char>>)
    ensures
        lines_behind(l) == joined(Seq::new(l.len(), |i: int| "\n"@ + l[i]), Seq::empty()),
    decreases l.len(),
{
    let parts = Seq::new(l.len(), |i: int| "\n"@ + l[i]);
    if l.len() > 0 {
        lemma_behind(l.drop_last());
        assert(parts.drop_last() =~= Seq::new(l.drop_last().len(), |i: int| "\n"@ + l.drop_last()[i]));
        assert(parts.last() == "\n"@ + l.last());
        assert(lines_behind(l) =~= lines_behind(l.drop_last()) + ("\n"@ + l.last()));
        assert(joined(parts, Seq::empty()) =~= joined(parts.drop_last(), Seq::empty()) + parts.last());
    }
}

/// For each match of a file on a page, the page has the line of that match under its own number, in
/// whatever place of the list the match is.
pub proof fn lemma_each_match_is_shown(
    workspace: &Workspace,
    home: Option<Seq<char>>,
    l: Seq<FileView>,
    skip: nat,
    window_files: nat,
    said: Seq<Seq<char>>,
    k: int,
    i: int,
)
    requires
        skip <= k < l.len(),
        0 <= i < l[k].matches.len(),
    ensures
        holds(
            page_text(workspace, home, l, skip, window_files, said),
            "  "@ + dec(l[k].matches[i].line_number as nat) + ": "@ + l[k].matches[i].line + "\n"@,
        ),
{
    let f = l[k];
    let part = match_shown(f.matches[i]);
    let lines = Seq::new(f.matches.len(), |i: int| match_shown(f.matches[i]));
    let body = joined(lines, Seq::empty());
    assert(part =~= Seq::<char>::empty() + part + Seq::<char>::empty());
    lemma_holds(Seq::empty(), part, Seq::empty());
    assert(lines[i] == part);
    lemma_joined_holds(lines, Seq::empty(), i, part);
    let front = shown_file(workspace, home, f.path) + "\n"@;
    let back = (if f.truncated {
        "  …该文件命中过多，已截断\n"@
    } else {
        Seq::empty()
    }) + "\n"@;
    assert(file_shown(workspace, home, f) =~= front + body + back);
    lemma_holds_within(front, body, back, part);
    let files = Seq::new((l.len() - skip) as nat, |i: int| file_shown(workspace, home, l[skip + i]));
    assert(files[k - skip] == file_shown(workspace, home, f));
    lemma_joined_holds(files, Seq::empty(), k - skip, part);
    lemma_page_shows_each_file(workspace, home, l, skip, window_files, said);
    let whole = page_text(workspace, home, l, skip, window_files, said);
    let head = joined(files, Seq::empty());
    assert(whole =~= Seq::<char>::empty() + head + whole.skip(head.len() as int));
    lemma_holds_within(Seq::empty(), head, whole.skip(head.len() as int), part);
}

/// A page tells all that is to be said of the search, with files or without.
pub proof fn lemma_remarks_are_told(
    workspace: &Workspace,
    home: Option<Seq<char>>,
    l: Seq<FileView>,
    skip: nat,
    window_files: nat,
    said: Seq<Seq<char>>,
    i: int,
)
    requires
        0 <= i < said.len(),
    ensures
        holds(page_text(workspace, home, l, skip, window_files, said), said[i]),
{
    let whole = page_text(workspace, home, l, skip, window_files, said);
    let part = said[i];
    if skip >= l.len() {
        let lines = seq![nothing_text(l.len(), skip)] + said;
        assert(lines[i + 1] == part);
        assert(part =~= Seq::<char>::empty() + part + Seq::<char>::empty());
        lemma_holds(Seq::empty(), part, Seq::empty());
        lemma_joined_holds(lines, "\n"@, i + 1, part);
    } else {
        let lines = Seq::new(said.len(), |i: int| "\n"@ + said[i]);
        assert(lines[i] =~= "\n"@ + part + Seq::<char>::empty());
        lemma_holds("\n"@, part, Seq::empty());
        lemma_joined_holds(lines, Seq::empty(), i, part);
        lemma_page_shows_each_file(workspace, home, l, skip, window_files, said);
        let tail = joined(lines, Seq::empty());
        let front = whole.take(whole.len() - tail.len());
        assert(whole =~= front + tail + Seq::<char>::empty());
        lemma_holds_within(front, tail, Seq::empty(), part);
    }
}

/// What is to be said of a search: that its pattern was taken word for word, that it ran out of time,
/// and each target that was missing; of one that went well, nothing.
pub proof fn lemma_what_is_to_be_said(x: &Remarks, pattern: Seq<char>)
    ensures
        x.matcher == MatcherKind::Literal ==> exists|i: int|
            0 <= i < notes_of(x, pattern).len() && holds(#[trigger] notes_of(x, pattern)[i], pattern)
                && holds(notes_of(x, pattern)[i], "` 编译失败，已退化为按字面量子串匹配（不支持正则语法，如需正则请修正模式）"@),
        x.timed_out ==> exists|i: int|
            0 <= i < notes_of(x, pattern).len() && holds(
                #[trigger] notes_of(x, pattern)[i],
                dec(x.timeout_secs as nat) + "s 内未完成，本次结果不完整"@,
            ),
        x.missing@.len() > 0 ==> exists|i: int|
            0 <= i < notes_of(x, pattern).len() && holds(
                #[trigger] notes_of(x, pattern)[i],
                joined(texts(x.missing@), ", "@),
            ),
        x.matcher != MatcherKind::Literal && !x.timed_out && x.missing@.len() == 0 ==> notes_of(
            x,
            pattern,
        ).len() == 0,
{
    let all = notes_of(x, pattern);
    let a = if x.matcher == MatcherKind::Literal {
        1int
    } else {
        0
    };
    let b = if x.timed_out {
        a + 1
    } else {
        a
    };
    if x.matcher == MatcherKind::Literal {
        let end = "` 编译失败，已退化为按字面量子串匹配（不支持正则语法，如需正则请修正模式）"@;
        assert(all[0] =~= "正则 `"@ + pattern + end);
        lemma_holds("正则 `"@, pattern, end);
        assert(all[0] =~= ("正则 `"@ + pattern) + end + Seq::<char>::empty());
        lemma_holds("正则 `"@ + pattern, end, Seq::empty());
    }
    if x.timed_out {
        let part = dec(x.timeout_secs as nat) + "s 内未完成，本次结果不完整"@;
        assert(all[a] =~= "grep 在 "@ + part + Seq::<char>::empty());
        lemma_holds("grep 在 "@, part, Seq::empty());
    }
    if x.missing@.len() > 0 {
        let part = joined(texts(x.missing@), ", "@);
        assert(all[b] =~= "已跳过不存在的路径："@ + part + Seq::<char>::empty());
        lemma_holds("已跳过不存在的路径："@, part, Seq::empty());
    }
}

/// A search looks for twenty files more than are skipped, and for twenty matches in each, as far as
/// these can be counted.
pub proof fn lemma_search_looks_one_page_ahead(skip: nat, files: nat)
    ensures
        skip + 20 <= usize::MAX ==> window(skip) == skip + 20,
        20 * files <= usize::MAX ==> total_cap(files) == 20 * files,
        skip <= usize::MAX ==> skip <= window(skip) <= usize::MAX,
        total_cap(files) <= usize::MAX,
{
}

} // verus!
