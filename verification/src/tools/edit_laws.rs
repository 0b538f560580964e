//! What holds of edits: the file's indentation is kept, and nothing but the block changes.

use vstd::prelude::*;

use crate::strings::{
    byte_len, index_at, is_space, joined, lacks, lemma_ascii_bytes, lemma_encode_concat,
    lemma_encode_push, lemma_index_of_offset, lemma_joined_concat, lemma_joined_splits_back,
    lemma_split_joins_back, lemma_split_last, split_on, trim, trim_end, trim_start,
};
use crate::tools::edit::{
    block_match, block_matches, block_reindent, blocks, find_from, first_full, indent_bytes,
    indent_prefix, is_blank, least_indent, lemma_blank, lemma_find_from, lemma_trim_start,
    lemma_trim_start_at, level_matches, line_start, located, min_indent, occurrences, reindented,
    reindented_line, reindented_lines, replaced, replacement, search_of, spliced, unindented, votes,
    Level, MatchView,
};

verus! {

broadcast use vstd::seq::group_seq_axioms;

// Indentation

/// Whether a text starts with another one.
pub open spec fn starts_with(s: Seq<char>, front: Seq<char>) -> bool {
    front.len() <= s.len() && s.take(front.len() as int) == front
}

/// A line whose indentation is exchanged: what stands behind it stays.
pub open spec fn shifted(line: Seq<char>, from: Seq<char>, to: Seq<char>) -> Seq<char> {
    if starts_with(line, from) {
        to + line.skip(from.len() as int)
    } else {
        line
    }
}

/// Lines in one text.
pub open spec fn text_of(l: Seq<Seq<char>>) -> Seq<char> {
    joined(l, seq!['\n'])
}

/// Whether each line is one line.
pub open spec fn are_lines(l: Seq<Seq<char>>) -> bool {
    forall|i: int| 0 <= i < l.len() ==> lacks(#[trigger] l[i], '\n')
}

proof fn lemma_reindented_lines(l: Seq<Seq<char>>, from: Seq<char>, to: Seq<char>, n: int)
    requires
        0 < n <= l.len(),
    ensures
        reindented_lines(l, from, to, n) == text_of(
            Seq::new(n as nat, |i: int| reindented_line(l[i], from, to)),
        ),
    decreases n,
{
    let m = Seq::new(n as nat, |i: int| reindented_line(l[i], from, to));
    if n > 1 {
        lemma_reindented_lines(l, from, to, n - 1);
        assert(m.drop_last() =~= Seq::new(
            (n - 1) as nat,
            |i: int| reindented_line(l[i], from, to),
        ));
        assert(reindented_lines(l, from, to, n) =~= text_of(m));
    }
}

proof fn lemma_reindented(text: Seq<char>, from: Seq<char>, to: Seq<char>)
    requires
        lacks(to, '\n'),
    ensures
        split_on(reindented(text, from, to), '\n') == Seq::new(
            split_on(text, '\n').len(),
            |i: int| shifted(split_on(text, '\n')[i], from, to),
        ),
{
    let a = split_on(text, '\n');
    let m = Seq::new(a.len(), |i: int| shifted(a[i], from, to));
    lemma_split_joins_back(text, '\n');
    assert forall|i: int| 0 <= i < m.len() implies lacks(#[trigger] m[i], '\n') by {
        assert(lacks(a[i], '\n'));
    }
    if from == to {
        assert forall|i: int| 0 <= i < a.len() implies m[i] == a[i] by {
            if starts_with(a[i], from) {
                assert(from + a[i].skip(from.len() as int) =~= a[i]);
            }
        }
        assert(m =~= a);
    } else {
        lemma_reindented_lines(a, from, to, a.len() as int);
        assert(m =~= Seq::new(a.len(), |i: int| reindented_line(a[i], from, to)));
        lemma_joined_splits_back(m, '\n');
    }
}

/// Where indentation is exchanged, a line that is `from` and something behind it becomes `to` and the
/// same behind it, and any other line stays. There are as many lines as before.
pub proof fn lemma_indentation_is_exchanged(text: Seq<char>, from: Seq<char>, to: Seq<char>)
    requires
        lacks(to, '\n'),
    ensures
        ({
            let a = split_on(text, '\n');
            let b = split_on(reindented(text, from, to), '\n');
            &&& b.len() == a.len()
            &&& forall|i: int, x: Seq<char>|
                0 <= i < a.len() && #[trigger] a[i] == #[trigger] (from + x) ==> b[i] == to + x
            &&& forall|i: int|
                0 <= i < a.len() && !starts_with(#[trigger] a[i], from) ==> b[i] == a[i]
        }),
{
    lemma_reindented(text, from, to);
    let a = split_on(text, '\n');
    let b = split_on(reindented(text, from, to), '\n');
    assert forall|i: int, x: Seq<char>|
        0 <= i < a.len() && #[trigger] a[i] == #[trigger] (from + x) implies b[i] == to + x by {
        assert(a[i].take(from.len() as int) =~= from);
        assert(a[i].skip(from.len() as int) =~= x);
    }
}

/// To exchange an indentation that all lines have for another one, and that for the first again, gives
/// the text back.
pub proof fn lemma_exchanged_and_back(text: Seq<char>, from: Seq<char>, to: Seq<char>)
    requires
        lacks(from, '\n'),
        lacks(to, '\n'),
        forall|i: int|
            0 <= i < split_on(text, '\n').len() ==> starts_with(
                #[trigger] split_on(text, '\n')[i],
                from,
            ),
    ensures
        reindented(reindented(text, from, to), to, from) == text,
{
    let a = split_on(text, '\n');
    let there = reindented(text, from, to);
    let b = split_on(there, '\n');
    let back = reindented(there, to, from);
    let c = split_on(back, '\n');
    lemma_reindented(text, from, to);
    lemma_reindented(there, to, from);
    assert forall|i: int| 0 <= i < a.len() implies c[i] == a[i] by {
        let x = a[i].skip(from.len() as int);
        assert(starts_with(a[i], from));
        assert(b[i] == to + x);
        assert(b[i].take(to.len() as int) =~= to);
        assert(b[i].skip(to.len() as int) =~= x);
        assert(from + x =~= a[i]);
    }
    assert(c =~= a);
    lemma_split_joins_back(text, '\n');
    lemma_split_joins_back(back, '\n');
}

// A block under another indentation

/// Whether a text is white space within one line.
pub open spec fn is_indentation(s: Seq<char>) -> bool {
    lacks(s, '\n') && forall|i: int| 0 <= i < s.len() ==> is_space(#[trigger] s[i])
}

/// Whether a block is `search` under the indentation `to` in place of `from`: each line has the same
/// behind it, blank lines aside, and one line has nothing more of it.
pub open spec fn is_shifted(
    block: Seq<Seq<char>>,
    search: Seq<Seq<char>>,
    from: Seq<char>,
    to: Seq<char>,
) -> bool {
    &&& block.len() == search.len()
    &&& is_indentation(from)
    &&& is_indentation(to)
    &&& forall|j: int|
        0 <= j < search.len() ==> {
            ||| is_blank(#[trigger] search[j]) && is_blank(block[j])
            ||| !is_blank(search[j]) && starts_with(search[j], from) && block[j] == to
                + search[j].skip(from.len() as int)
        }
    &&& exists|j: int|
        0 <= j < search.len() && starts_with(#[trigger] search[j], from) && search[j].len()
            > from.len() && !is_space(search[j][from.len() as int])
}

/// White space in front of a line adds to its indentation.
proof fn lemma_indented(to: Seq<char>, x: Seq<char>)
    requires
        is_indentation(to),
        !is_blank(x),
    ensures
        !is_blank(to + x),
        trim_start(to + x) == trim_start(x),
        indent_bytes(to + x) == byte_len(to) + indent_bytes(x),
        index_at(to + x, byte_len(to)) == Some(to.len()),
{
    let s = to + x;
    let k = lemma_trim_start(x);
    lemma_blank(x);
    lemma_blank(s);
    assert(k < x.len());
    assert(s[to.len() + k] == x[k]);
    assert forall|i: int| 0 <= i < to.len() + k implies is_space(s[i]) by {
        if i < to.len() {
            assert(s[i] == to[i]);
        } else {
            assert(s[i] == x[i - to.len()]);
        }
    }
    lemma_trim_start_at(s, to.len() + k);
    assert(s.skip(to.len() + k) =~= x.skip(k));
    lemma_encode_concat(to, x);
    crate::strings::lemma_encode_split(x, k);
    assert(s.take(to.len() as int) =~= to);
    lemma_index_of_offset(s, to.len() as int);
}

proof fn lemma_least_indent_of(l: Seq<Seq<char>>, n: nat, j: int)
    requires
        0 <= j < l.len(),
        !is_blank(l[j]),
        indent_bytes(l[j]) == n,
        forall|i: int| 0 <= i < l.len() && !is_blank(#[trigger] l[i]) ==> n <= indent_bytes(l[i]),
    ensures
        least_indent(l) == Some(n),
    decreases l.len(),
{
    let front = l.drop_last();
    assert forall|i: int| 0 <= i < front.len() && !is_blank(#[trigger] front[i]) implies n
        <= indent_bytes(front[i]) by {
        assert(front[i] == l[i]);
    }
    if j < l.len() - 1 {
        assert(front[j] == l[j]);
        lemma_least_indent_of(front, n, j);
        assert(!is_blank(l[l.len() - 1]) ==> n <= indent_bytes(l[l.len() - 1]));
    } else {
        lemma_least_at_least(front, n);
    }
}

proof fn lemma_least_at_least(l: Seq<Seq<char>>, n: nat)
    requires
        forall|i: int| 0 <= i < l.len() && !is_blank(#[trigger] l[i]) ==> n <= indent_bytes(l[i]),
    ensures
        least_indent(l) matches Some(m) ==> n <= m,
    decreases l.len(),
{
    if l.len() > 0 {
        let front = l.drop_last();
        assert forall|i: int| 0 <= i < front.len() && !is_blank(#[trigger] front[i]) implies n
            <= indent_bytes(front[i]) by {
            assert(front[i] == l[i]);
        }
        lemma_least_at_least(front, n);
        assert(!is_blank(l[l.len() - 1]) ==> n <= indent_bytes(l[l.len() - 1]));
    }
}

proof fn lemma_first_full(l: Seq<Seq<char>>, i: int, j: int)
    requires
        0 <= i <= j < l.len(),
        !is_blank(l[j]),
    ensures
        first_full(l, i) matches Some(k) && i <= k < l.len() && !is_blank(l[k]),
    decreases l.len() - i,
{
    if is_blank(l[i]) {
        lemma_first_full(l, i + 1, j);
    }
}

/// Lines that are blank or have an indentation, one of them nothing more of it, have just that.
proof fn lemma_common_indent(l: Seq<Seq<char>>, to: Seq<char>, at: int)
    requires
        is_indentation(to),
        0 <= at < l.len(),
        forall|j: int| 0 <= j < l.len() ==> is_blank(#[trigger] l[j]) || starts_with(l[j], to),
        starts_with(l[at], to),
        l[at].len() > to.len(),
        !is_space(l[at][to.len() as int]),
    ensures
        min_indent(l) == byte_len(to),
        indent_prefix(l) == to,
        forall|j: int|
            0 <= j < l.len() && !is_blank(#[trigger] l[j]) ==> unindented(l[j], min_indent(l))
                == l[j].skip(to.len() as int),
{
    assert forall|j: int| 0 <= j < l.len() && !is_blank(#[trigger] l[j]) implies byte_len(to)
        <= indent_bytes(l[j]) && index_at(l[j], byte_len(to)) == Some(to.len()) by {
        let x = l[j].skip(to.len() as int);
        assert(l[j] =~= to + x);
        lemma_blank(x);
        lemma_blank(l[j]);
        if is_blank(x) {
            assert forall|i: int| 0 <= i < l[j].len() implies is_space(l[j][i]) by {
                if i < to.len() {
                    assert(l[j][i] == to[i]);
                } else {
                    assert(l[j][i] == x[i - to.len()]);
                }
            }
        }
        lemma_indented(to, x);
    }
    let y = l[at].skip(to.len() as int);
    assert(l[at] =~= to + y);
    assert(y[0] == l[at][to.len() as int]);
    lemma_blank(y);
    lemma_blank(l[at]);
    lemma_trim_start_at(y, 0);
    assert(y.skip(0) =~= y);
    lemma_indented(to, y);
    assert(indent_bytes(l[at]) == byte_len(to));
    lemma_least_indent_of(l, byte_len(to), at);
    lemma_first_full(l, 0, at);
    let k = first_full(l, 0)->0;
    assert(starts_with(l[k], to));
}

/// A block that stands in a file under another indentation is taken for the text, and that indentation
/// is exchanged in what replaces it.
pub proof fn lemma_shifted_block_matches(
    block: Seq<Seq<char>>,
    search: Seq<Seq<char>>,
    from: Seq<char>,
    to: Seq<char>,
)
    requires
        is_shifted(block, search, from, to),
    ensures
        block_matches(Level::Indent, block, search),
        block_reindent(Level::Indent, block, search) == if from == to {
            None
        } else {
            Some((from, to))
        },
{
    let at = choose|j: int|
        0 <= j < search.len() && starts_with(#[trigger] search[j], from) && search[j].len()
            > from.len() && !is_space(search[j][from.len() as int]);
    lemma_blank(search[at]);
    assert(block[at] == to + search[at].skip(from.len() as int));
    assert(block[at].take(to.len() as int) =~= to);
    assert(block[at][to.len() as int] == search[at][from.len() as int]);
    assert forall|j: int| 0 <= j < block.len() implies is_blank(#[trigger] block[j]) || starts_with(
        block[j],
        to,
    ) by {
        if !is_blank(search[j]) {
            assert(block[j].take(to.len() as int) =~= to);
        }
    }
    lemma_common_indent(search, from, at);
    lemma_common_indent(block, to, at);
    assert forall|j: int| 0 <= j < search.len() implies trim_end(
        unindented(#[trigger] block[j], min_indent(block)),
    ) == trim_end(unindented(search[j], min_indent(search))) by {
        if is_blank(search[j]) {
            assert(is_blank(block[j]));
            lemma_blank(search[j]);
            lemma_blank(block[j]);
            assert(trim_end(search[j]) =~= trim_end(block[j]));
        } else {
            let x = search[j].skip(from.len() as int);
            assert(search[j] =~= from + x);
            lemma_blank(search[j]);
            lemma_blank(x);
            if is_blank(x) {
                assert forall|i: int| 0 <= i < search[j].len() implies is_space(search[j][i]) by {
                    if i < from.len() {
                        assert(search[j][i] == from[i]);
                    } else {
                        assert(search[j][i] == x[i - from.len()]);
                    }
                }
            }
            lemma_indented(to, x);
            assert(block[j].skip(to.len() as int) =~= x);
        }
    }
}

// Places

/// What stands in front of the lines behind `front`.
pub open spec fn before(front: Seq<Seq<char>>) -> Seq<char> {
    if front.len() == 0 {
        Seq::empty()
    } else {
        text_of(front).push('\n')
    }
}

/// What stands behind the lines in front of `back`.
pub open spec fn behind(back: Seq<Seq<char>>) -> Seq<char> {
    if back.len() == 0 {
        Seq::empty()
    } else {
        seq!['\n'] + text_of(back)
    }
}

proof fn lemma_three_parts(front: Seq<Seq<char>>, block: Seq<Seq<char>>, back: Seq<Seq<char>>)
    requires
        block.len() > 0,
    ensures
        text_of(front + block + back) == before(front) + text_of(block) + behind(back),
{
    let c = seq!['\n'];
    if front.len() > 0 {
        lemma_joined_concat(front, block, c);
        assert(text_of(front) + c =~= before(front));
    } else {
        assert(front + block =~= block);
        assert(before(front) + text_of(block) =~= text_of(block));
    }
    assert(text_of(front + block) =~= before(front) + text_of(block));
    if back.len() > 0 {
        lemma_joined_concat(front + block, back, c);
        assert(text_of(front + block + back) =~= text_of(front + block) + behind(back));
    } else {
        assert(front + block + back =~= front + block);
        assert(text_of(front + block) + behind(back) =~= text_of(front + block));
    }
}

/// Where the line behind `front` starts.
proof fn lemma_start_of(front: Seq<Seq<char>>, rest: Seq<Seq<char>>)
    ensures
        line_start(front + rest, front.len() as int) == byte_len(before(front)),
    decreases front.len(),
{
    let l = front + rest;
    if front.len() == 0 {
    } else {
        let f = front.drop_last();
        let r = seq![front.last()] + rest;
        assert(f + r =~= l);
        lemma_start_of(f, r);
        assert(l[front.len() - 1] == front.last());
        lemma_ascii_bytes('\n');
        lemma_encode_push(text_of(front), '\n');
        if front.len() == 1 {
            assert(text_of(front) == front.last());
        } else {
            assert(text_of(front) =~= before(f) + front.last());
            lemma_encode_concat(before(f), front.last());
        }
    }
}

/// Where the block behind `front` ends.
proof fn lemma_end_of(front: Seq<Seq<char>>, block: Seq<Seq<char>>, back: Seq<Seq<char>>)
    requires
        block.len() > 0,
    ensures
        ({
            let l = front + block + back;
            let k = front.len() + block.len() - 1;
            line_start(l, k) + byte_len(l[k]) == byte_len(before(front) + text_of(block))
        }),
{
    let l = front + block + back;
    let f = front + block.drop_last();
    let r = seq![block.last()] + back;
    assert(f + r =~= l);
    lemma_start_of(f, r);
    let all = before(front) + text_of(block);
    if f.len() > 0 {
        assert(f.push(block.last()) =~= front + block);
        lemma_three_parts(front, block, Seq::empty());
        assert(front + block + Seq::<Seq<char>>::empty() =~= front + block);
        assert(all + behind(Seq::<Seq<char>>::empty()) =~= all);
        assert(f.push(block.last()).drop_last() =~= f);
        assert(text_of(f.push(block.last())) =~= before(f) + block.last());
        assert(before(f) + block.last() =~= all);
    } else {
        assert(all =~= block.last());
        assert(before(f) + block.last() =~= block.last());
    }
    lemma_encode_concat(before(f), block.last());
}

proof fn lemma_block_listed(level: Level, l: Seq<Seq<char>>, search: Seq<Seq<char>>, k: int, i: int)
    requires
        0 <= i < k,
        block_matches(level, l.subrange(i, i + search.len()), search),
    ensures
        blocks(level, l, search, k).contains(block_match(level, l, search, i)),
    decreases k,
{
    let m = block_match(level, l, search, i);
    let now = blocks(level, l, search, k);
    if i == k - 1 {
        assert(now[now.len() - 1] == m);
    } else {
        lemma_block_listed(level, l, search, k - 1, i);
        let prior = blocks(level, l, search, k - 1);
        let j = choose|j: int| 0 <= j < prior.len() && prior[j] == m;
        assert(now[j] == m);
    }
}

/// The place of a block in a file.
pub open spec fn place_of(
    front: Seq<Seq<char>>,
    block: Seq<Seq<char>>,
    reindent: Option<(Seq<char>, Seq<char>)>,
) -> MatchView {
    MatchView {
        start: byte_len(before(front)),
        end: byte_len(before(front) + text_of(block)),
        reindent,
    }
}

proof fn lemma_listed(
    level: Level,
    front: Seq<Seq<char>>,
    block: Seq<Seq<char>>,
    back: Seq<Seq<char>>,
    search: Seq<Seq<char>>,
)
    requires
        are_lines(front),
        are_lines(block),
        are_lines(back),
        are_lines(search),
        block.len() == search.len(),
        search.len() > 0,
        search.last().len() > 0,
        block_matches(level, block, search),
    ensures
        level_matches(level, text_of(front + block + back), text_of(search)).contains(
            place_of(front, block, block_reindent(level, block, search)),
        ),
{
    let l = front + block + back;
    assert forall|i: int| 0 <= i < l.len() implies lacks(#[trigger] l[i], '\n') by {
        if i < front.len() {
            assert(l[i] == front[i]);
        } else if i < front.len() + block.len() {
            assert(l[i] == block[i - front.len()]);
        } else {
            assert(l[i] == back[i - front.len() - block.len()]);
        }
    }
    lemma_joined_splits_back(l, '\n');
    lemma_joined_splits_back(search, '\n');
    assert(search_of(text_of(search)) == search);
    let i = front.len() as int;
    assert(l.subrange(i, i + search.len()) =~= block);
    lemma_block_listed(level, l, search, l.len() - search.len() + 1, i);
    lemma_start_of(front, block + back);
    assert(front + (block + back) =~= l);
    lemma_end_of(front, block, back);
    assert(block_match(level, l, search, i) =~= place_of(
        front,
        block,
        block_reindent(level, block, search),
    ));
}

/// A file in which a block is replaced: what stands in front of it and behind it stays, and between
/// them stands what replaces it.
pub proof fn lemma_only_the_block_changes(
    front: Seq<Seq<char>>,
    block: Seq<Seq<char>>,
    back: Seq<Seq<char>>,
    from: Seq<char>,
    to: Seq<char>,
    new: Seq<Seq<char>>,
)
    requires
        are_lines(front),
        are_lines(block),
        are_lines(back),
        are_lines(new),
        block.len() > 0,
        new.len() > 0,
        lacks(to, '\n'),
    ensures
        ({
            let content = text_of(front + block + back);
            let m = place_of(
                front,
                block,
                if from == to {
                    None
                } else {
                    Some((from, to))
                },
            );
            spliced(content, m, text_of(new)) == text_of(
                front + Seq::new(new.len(), |j: int| shifted(new[j], from, to)) + back,
            )
        }),
{
    let content = text_of(front + block + back);
    let reindent = if from == to {
        None
    } else {
        Some((from, to))
    };
    let m = place_of(front, block, reindent);
    let moved = Seq::new(new.len(), |j: int| shifted(new[j], from, to));
    lemma_three_parts(front, block, back);
    lemma_three_parts(front, moved, back);
    let a = before(front).len() as int;
    let b = (before(front) + text_of(block)).len() as int;
    assert(content.take(a) =~= before(front));
    assert(content.take(b) =~= before(front) + text_of(block));
    assert(content.skip(b) =~= behind(back));
    lemma_index_of_offset(content, a);
    lemma_index_of_offset(content, b);
    lemma_joined_splits_back(new, '\n');
    lemma_reindented(text_of(new), from, to);
    lemma_split_joins_back(reindented(text_of(new), from, to), '\n');
    assert(split_on(reindented(text_of(new), from, to), '\n') =~= moved);
    assert(replacement(m, text_of(new)) == text_of(moved));
    assert(spliced(content, m, text_of(new)) =~= before(front) + text_of(moved) + behind(back));
}

// What is found

/// Where a text stands in a file just so, each place that is found holds just that text.
pub proof fn lemma_exact_text_comes_first(content: Seq<char>, old: Seq<char>, k: int)
    requires
        0 <= k,
        k + old.len() <= content.len(),
        old.len() > 0,
        content.subrange(k, k + old.len()) == old,
    ensures
        located(content, old).len() > 0,
        forall|i: int|
            0 <= i < located(content, old).len() ==> is_exactly(
                content,
                old,
                #[trigger] located(content, old)[i],
            ),
{
    lemma_found_before(content, old, 0, k);
    lemma_occurrences_are_exact(content, old, 0);
}

/// Whether a place holds a text as it is, with no indentation to exchange.
pub open spec fn is_exactly(content: Seq<char>, old: Seq<char>, m: MatchView) -> bool {
    &&& m.reindent is None
    &&& exists|a: Seq<char>, b: Seq<char>|
        content == #[trigger] (a + old + b) && m.start == byte_len(a) && m.end == byte_len(a + old)
}

proof fn lemma_found_before(s: Seq<char>, pat: Seq<char>, k: int, at: int)
    requires
        0 <= k <= at,
        at + pat.len() <= s.len(),
        pat.len() > 0,
        s.subrange(at, at + pat.len()) == pat,
    ensures
        find_from(s, pat, k) <= at,
        occurrences(s, pat, k).len() > 0,
    decreases at - k,
{
    if s.subrange(k, k + pat.len()) != pat {
        lemma_found_before(s, pat, k + 1, at);
    }
}

proof fn lemma_occurrences_are_exact(s: Seq<char>, pat: Seq<char>, k: int)
    requires
        0 <= k <= s.len(),
        pat.len() > 0,
    ensures
        forall|i: int|
            0 <= i < occurrences(s, pat, k).len() ==> is_exactly(
                s,
                pat,
                #[trigger] occurrences(s, pat, k)[i],
            ),
    decreases s.len() - k,
{
    lemma_find_from(s, pat, k);
    let at = find_from(s, pat, k);
    if at + pat.len() <= s.len() {
        lemma_occurrences_are_exact(s, pat, at + pat.len());
        let all = occurrences(s, pat, k);
        let later = occurrences(s, pat, at + pat.len());
        assert forall|i: int| 0 <= i < all.len() implies is_exactly(s, pat, #[trigger] all[i]) by {
            if i == 0 {
                let a = s.take(at);
                let b = s.skip(at + pat.len());
                lemma_encode_concat(a, pat);
                assert(s =~= a + pat + b);
            } else {
                assert(all[i] == later[i - 1]);
            }
        }
    }
}

/// A block that stands in a file under another indentation is found there, unless the text is found
/// just so or but for white space at line ends, and what replaces it has that indentation in place of
/// its own. Nothing else of the file changes.
pub proof fn lemma_indentation_of_the_file_is_kept(
    front: Seq<Seq<char>>,
    block: Seq<Seq<char>>,
    back: Seq<Seq<char>>,
    search: Seq<Seq<char>>,
    from: Seq<char>,
    to: Seq<char>,
    new: Seq<Seq<char>>,
)
    requires
        are_lines(front),
        are_lines(block),
        are_lines(back),
        are_lines(search),
        are_lines(new),
        new.len() > 0,
        is_shifted(block, search, from, to),
        search.last().len() > 0,
    ensures
        ({
            let content = text_of(front + block + back);
            let old = text_of(search);
            let m = place_of(
                front,
                block,
                if from == to {
                    None
                } else {
                    Some((from, to))
                },
            );
            &&& located(content, old).len() > 0
            &&& occurrences(content, old, 0).len() == 0 && level_matches(
                Level::Trailing,
                content,
                old,
            ).len() == 0 ==> located(content, old).contains(m)
            &&& located(content, old) == seq![m] ==> replaced(
                content,
                located(content, old),
                text_of(new),
            ) == text_of(front + Seq::new(new.len(), |j: int| shifted(new[j], from, to)) + back)
        }),
{
    let content = text_of(front + block + back);
    let old = text_of(search);
    lemma_shifted_block_matches(block, search, from, to);
    lemma_listed(Level::Indent, front, block, back, search);
    let reindent = if from == to {
        None
    } else {
        Some((from, to))
    };
    let m = place_of(front, block, reindent);
    let found = level_matches(Level::Indent, content, old);
    assert(found.contains(m));
    lemma_only_the_block_changes(front, block, back, from, to, new);
    if located(content, old) == seq![m] {
        assert(seq![m].drop_last() =~= Seq::<MatchView>::empty());
        reveal_with_fuel(replaced, 2);
    }
}

/// A block that stands in a file under another indentation, replaced by the text that it was found by,
/// leaves the file as it was, but for white space at the ends of the block's lines.
pub proof fn lemma_replaced_by_itself(
    front: Seq<Seq<char>>,
    block: Seq<Seq<char>>,
    back: Seq<Seq<char>>,
    search: Seq<Seq<char>>,
    from: Seq<char>,
    to: Seq<char>,
)
    requires
        are_lines(front),
        are_lines(block),
        are_lines(back),
        are_lines(search),
        is_shifted(block, search, from, to),
        search.last().len() > 0,
        located(text_of(front + block + back), text_of(search)) == seq![
            place_of(
                front,
                block,
                if from == to {
                    None
                } else {
                    Some((from, to))
                },
            ),
        ],
    ensures
        ({
            let content = text_of(front + block + back);
            let old = text_of(search);
            let l = front + block + back;
            let r = split_on(replaced(content, located(content, old), old), '\n');
            &&& r.len() == l.len()
            &&& forall|i: int| 0 <= i < l.len() ==> trim_end(#[trigger] r[i]) == trim_end(l[i])
            &&& forall|i: int|
                0 <= i < front.len() || front.len() + block.len() <= i < l.len()
                    ==> #[trigger] r[i] == l[i]
        }),
{
    lemma_indentation_of_the_file_is_kept(front, block, back, search, from, to, search);
    let moved = Seq::new(search.len(), |j: int| shifted(search[j], from, to));
    let l = front + block + back;
    let n = front + moved + back;
    assert forall|i: int| 0 <= i < n.len() implies lacks(#[trigger] n[i], '\n') by {
        if i < front.len() {
            assert(n[i] == front[i]);
        } else if i < front.len() + moved.len() {
            assert(lacks(search[i - front.len()], '\n'));
        } else {
            assert(n[i] == back[i - front.len() - moved.len()]);
        }
    }
    lemma_joined_splits_back(n, '\n');
    assert forall|i: int| 0 <= i < l.len() implies trim_end(#[trigger] n[i]) == trim_end(l[i]) by {
        if front.len() <= i < front.len() + block.len() {
            let j = i - front.len();
            if is_blank(search[j]) {
                let x = shifted(search[j], from, to);
                lemma_blank(search[j]);
                lemma_blank(x);
                lemma_blank(block[j]);
                assert forall|k: int| 0 <= k < x.len() implies is_space(x[k]) by {
                    if starts_with(search[j], from) {
                        if k < to.len() {
                            assert(x[k] == to[k]);
                        } else {
                            assert(x[k] == search[j][k - to.len() + from.len()]);
                        }
                    }
                }
                assert(trim_end(x) =~= trim_end(block[j]));
            } else {
                assert(n[i] == block[j]);
            }
        }
    }
}

// All places

/// Whether a text nowhere has another one in it.
pub open spec fn is_without(s: Seq<char>, pat: Seq<char>) -> bool {
    forall|i: int|
        0 <= i && i + pat.len() <= s.len() ==> #[trigger] s.subrange(i, i + pat.len()) != pat
}

/// What stands between the places from `k` on.
pub open spec fn pieces(s: Seq<char>, pat: Seq<char>, k: int) -> Seq<Seq<char>>
    decreases s.len() - k,
{
    if pat.len() == 0 || k < 0 || k > s.len() {
        seq![s.skip(k)]
    } else {
        proof {
            lemma_find_from(s, pat, k);
        }
        let at = find_from(s, pat, k);
        if at + pat.len() > s.len() {
            seq![s.skip(k)]
        } else {
            seq![s.subrange(k, at)] + pieces(s, pat, at + pat.len())
        }
    }
}

proof fn lemma_joined_first(first: Seq<char>, rest: Seq<Seq<char>>, separator: Seq<char>)
    requires
        rest.len() > 0,
    ensures
        joined(seq![first] + rest, separator) == first + separator + joined(rest, separator),
    decreases rest.len(),
{
    let all = seq![first] + rest;
    assert(all.drop_last() =~= seq![first] + rest.drop_last());
    assert(all.last() == rest.last());
    if rest.len() == 1 {
        assert(all.drop_last() =~= seq![first]);
        assert(joined(all, separator) == joined(all.drop_last(), separator) + separator + rest[0]);
    } else {
        lemma_joined_first(first, rest.drop_last(), separator);
        assert(joined(all, separator) =~= first + separator + (joined(rest.drop_last(), separator)
            + separator + rest.last()));
    }
}

proof fn lemma_none_between(s: Seq<char>, pat: Seq<char>, k: int, j: int)
    requires
        0 <= k <= j < find_from(s, pat, k),
        k <= s.len(),
        pat.len() > 0,
        j + pat.len() <= s.len(),
    ensures
        s.subrange(j, j + pat.len()) != pat,
    decreases j - k,
{
    if k < j {
        lemma_none_between(s, pat, k + 1, j);
    }
}

proof fn lemma_pieces(s: Seq<char>, pat: Seq<char>, k: int)
    requires
        0 <= k <= s.len(),
        pat.len() > 0,
    ensures
        pieces(s, pat, k).len() == occurrences(s, pat, k).len() + 1,
        joined(pieces(s, pat, k), pat) == s.skip(k),
        forall|i: int| 0 <= i < pieces(s, pat, k).len() ==> is_without(#[trigger] pieces(s, pat, k)[i], pat),
    decreases s.len() - k,
{
    lemma_find_from(s, pat, k);
    let at = find_from(s, pat, k);
    let all = pieces(s, pat, k);
    let first = all[0];
    let found = at + pat.len() <= s.len();
    assert(is_without(first, pat)) by {
        assert forall|i: int| 0 <= i && i + pat.len() <= first.len() implies #[trigger] first.subrange(
            i,
            i + pat.len(),
        ) != pat by {
            assert(first.subrange(i, i + pat.len()) =~= s.subrange(k + i, k + i + pat.len()));
            lemma_none_between(s, pat, k, k + i);
        }
    }
    if found {
        let next = at + pat.len();
        lemma_pieces(s, pat, next);
        let rest = pieces(s, pat, next);
        lemma_joined_first(first, rest, pat);
        assert(s.subrange(at, next) == pat);
        assert(s.skip(k) =~= first + s.subrange(at, next) + s.skip(next));
        assert forall|i: int| 0 <= i < all.len() implies is_without(#[trigger] all[i], pat) by {
            if i > 0 {
                assert(all[i] == rest[i - 1]);
            }
        }
    }
}

proof fn lemma_first_replaced_last(s: Seq<char>, m: Seq<MatchView>, new: Seq<char>)
    requires
        m.len() > 0,
    ensures
        replaced(s, m, new) == spliced(replaced(s, m.drop_first(), new), m[0], new),
    decreases m.len(),
{
    if m.len() == 1 {
        reveal_with_fuel(replaced, 2);
        assert(m.drop_first() =~= Seq::<MatchView>::empty());
        assert(m.drop_last() =~= Seq::<MatchView>::empty());
    } else {
        let one = spliced(s, m.last(), new);
        lemma_first_replaced_last(one, m.drop_last(), new);
        assert(m.drop_last().drop_first() =~= m.drop_first().drop_last());
        assert(m.drop_first().last() == m.last());
        assert(m.drop_last()[0] == m[0]);
    }
}

proof fn lemma_pieces_replaced(s: Seq<char>, pat: Seq<char>, new: Seq<char>, k: int)
    requires
        0 <= k <= s.len(),
        pat.len() > 0,
    ensures
        replaced(s, occurrences(s, pat, k), new) == s.take(k) + joined(pieces(s, pat, k), new),
    decreases s.len() - k,
{
    lemma_find_from(s, pat, k);
    let at = find_from(s, pat, k);
    let m = occurrences(s, pat, k);
    let all = pieces(s, pat, k);
    if at + pat.len() <= s.len() {
        let next = at + pat.len();
        lemma_pieces_replaced(s, pat, new, next);
        lemma_pieces(s, pat, next);
        let rest = pieces(s, pat, next);
        assert(m.drop_first() =~= occurrences(s, pat, next));
        lemma_first_replaced_last(s, m, new);
        let t = s.take(next) + joined(rest, new);
        assert(t.take(at) =~= s.take(at));
        assert(t.take(next) =~= s.take(next));
        assert(t.skip(next) =~= joined(rest, new));
        assert(s.take(next) =~= s.take(at) + pat) by {
            assert(s.subrange(at, next) == pat);
            assert(s.take(next) =~= s.take(at) + s.subrange(at, next));
        }
        lemma_encode_concat(s.take(at), pat);
        lemma_index_of_offset(t, at);
        lemma_index_of_offset(t, next);
        assert(m[0].start == byte_len(t.take(at)));
        assert(m[0].end == byte_len(t.take(next)));
        assert(spliced(t, m[0], new) == s.take(at) + new + joined(rest, new));
        lemma_joined_first(s.subrange(k, at), rest, new);
        assert(s.take(at) + new + joined(rest, new) =~= s.take(k) + (s.subrange(k, at) + new + joined(
            rest,
            new,
        )));
    } else {
        assert(m =~= Seq::<MatchView>::empty());
        assert(s.take(k) + s.skip(k) =~= s);
    }
}

/// Where a text stands in a file just so, the places that are found part the file into pieces that are
/// without that text, and to replace all of them puts the new text between the same pieces.
pub proof fn lemma_all_places_are_replaced(content: Seq<char>, old: Seq<char>, new: Seq<char>)
    requires
        old.len() > 0,
        !is_without(content, old),
    ensures
        exists|parts: Seq<Seq<char>>|
            {
                &&& #[trigger] joined(parts, old) == content
                &&& parts.len() == located(content, old).len() + 1
                &&& parts.len() > 1
                &&& forall|i: int| 0 <= i < parts.len() ==> is_without(#[trigger] parts[i], old)
                &&& replaced(content, located(content, old), new) == joined(parts, new)
            },
{
    let at = choose|i: int|
        0 <= i && i + old.len() <= content.len() && #[trigger] content.subrange(i, i + old.len()) == old;
    lemma_found_before(content, old, 0, at);
    lemma_pieces(content, old, 0);
    lemma_pieces_replaced(content, old, new, 0);
    let parts = pieces(content, old, 0);
    assert(content.skip(0) =~= content);
    assert(content.take(0) + joined(parts, new) =~= joined(parts, new));
    assert(joined(parts, old) == content);
}

// Half of a block

/// Whether more than half of the lines between the first and the last one agree but for white space,
/// of those that are not blank in both: there may be none.
pub open spec fn mostly_agree(block: Seq<Seq<char>>, search: Seq<Seq<char>>) -> bool {
    let inner = Seq::new((search.len() - 2) as nat, |i: int| (trim(block[i + 1]), trim(search[i + 1])));
    let full = inner.filter(|p: (Seq<char>, Seq<char>)| p.0.len() > 0 || p.1.len() > 0);
    let same = full.filter(|p: (Seq<char>, Seq<char>)| p.0 == p.1);
    full.len() == 0 || same.len() * 2 > full.len()
}

proof fn lemma_votes(block: Seq<Seq<char>>, search: Seq<Seq<char>>, k: int)
    requires
        1 <= k,
    ensures
        ({
            let inner = Seq::new((k - 1) as nat, |i: int| (trim(block[i + 1]), trim(search[i + 1])));
            let full = inner.filter(|p: (Seq<char>, Seq<char>)| p.0.len() > 0 || p.1.len() > 0);
            let same = full.filter(|p: (Seq<char>, Seq<char>)| p.0 == p.1);
            votes(block, search, k) == (full.len(), same.len())
        }),
    decreases k,
{
    reveal(Seq::filter);
    let inner = Seq::new((k - 1) as nat, |i: int| (trim(block[i + 1]), trim(search[i + 1])));
    let f = |p: (Seq<char>, Seq<char>)| p.0.len() > 0 || p.1.len() > 0;
    let g = |p: (Seq<char>, Seq<char>)| p.0 == p.1;
    if k > 1 {
        lemma_votes(block, search, k - 1);
        let before = Seq::new((k - 2) as nat, |i: int| (trim(block[i + 1]), trim(search[i + 1])));
        assert(inner.drop_last() =~= before);
        let last = (trim(block[k - 1]), trim(search[k - 1]));
        assert(inner.last() == last);
        if f(last) {
            assert(inner.filter(f) == before.filter(f).push(last));
            assert(inner.filter(f).drop_last() =~= before.filter(f));
        }
    }
}

/// A block is found by its first and last line where it has at least three lines and more than half of
/// those between them agree.
pub proof fn lemma_found_by_its_ends(block: Seq<Seq<char>>, search: Seq<Seq<char>>)
    requires
        block.len() == search.len(),
    ensures
        block_matches(Level::Anchor, block, search) <==> {
            &&& search.len() >= 3
            &&& trim(block[0]) == trim(search[0])
            &&& trim(block.last()) == trim(search.last())
            &&& mostly_agree(block, search)
        },
{
    if search.len() >= 3 {
        lemma_votes(block, search, search.len() - 1);
    }
}

/// A line break at the end of the text that is looked for does not count, where it is looked for line
/// by line.
pub proof fn lemma_break_at_the_end_does_not_count(level: Level, content: Seq<char>, old: Seq<char>)
    requires
        old.len() > 0,
        old.last() != '\n',
    ensures
        level_matches(level, content, old.push('\n')) == level_matches(level, content, old),
{
    lemma_split_last(old, Seq::empty(), '\n');
    assert(old.push('\n') + Seq::<char>::empty() =~= old.push('\n'));
    let l = split_on(old, '\n');
    lemma_split_joins_back(old, '\n');
    assert(l.last().len() > 0) by {
        if l.last().len() == 0 {
            lemma_joined_end(l, '\n');
        }
    }
    assert(search_of(old) == l);
    assert(search_of(old.push('\n')) =~= l);
}

/// Where the last part is empty, what is put together ends with what stands between the parts, if there
/// is any.
proof fn lemma_joined_end(l: Seq<Seq<char>>, c: char)
    requires
        l.len() > 0,
        l.last().len() == 0,
    ensures
        joined(l, seq![c]).len() == 0 || joined(l, seq![c]).last() == c,
{
    if l.len() > 1 {
        assert(joined(l, seq![c]) =~= joined(l.drop_last(), seq![c]) + seq![c]);
    }
}

} // verus!
