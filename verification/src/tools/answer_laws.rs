//! What the answer to a call tells.

use vstd::prelude::*;
use vstd::utf8::valid_utf8;

use crate::strings::{
    byte_len, dec, holds, lemma_dec_is_injective, lemma_encode_concat, lemma_encode_one,
    lemma_holds, lemma_holds_within, split_on, trim,
};
use crate::text::truncate::{
    first_line, head_kept, lemma_head_kept, lemma_head_kept_is_longest, line_count,
};
use crate::tools::calls::{
    edit_problem, failure_text, file_text, selector_problem, unreadable_text, EditArgs, Failure, FileRead,
};
use crate::tools::edit::located;
use crate::tools::edit_report::{diff_of, edit_refusal};
use crate::tools::output::{cleaned, flattened, notice};
use crate::tools::targets::{existing, kept_pieces, lacking, targets, TargetView};
use crate::tools::selector::selector_colon;
use crate::tools::write::{
    is_misfire, link_text, misfire_text, temporary_name, written_text, SymlinkResolution,
};
use crate::utf8::lossy;

verus! {

broadcast use vstd::seq::group_seq_axioms;

/// An answer is the text itself where that has at most three thousand lines and fifty thousand bytes;
/// else it is the longest run of whole leading lines within both limits, and behind it how many lines and
/// bytes are left out.
pub proof fn lemma_long_answer_is_cut(body: Seq<char>)
    ensures
        ({
            let whole = flattened(body);
            let answer = cleaned(body);
            ||| answer == whole && line_count(whole) <= 3000 && byte_len(whole) <= 50000
            ||| exists|n: int|
                {
                    &&& 0 <= n < whole.len()
                    &&& line_count(#[trigger] whole.take(n)) <= 3000
                    &&& byte_len(whole.take(n)) <= 50000
                    &&& line_count(whole.take(n)) == 3000 || byte_len(
                        whole.take(n) + first_line(whole.skip(n)),
                    ) > 50000
                    &&& answer == whole.take(n) + notice(
                        (line_count(whole) - line_count(whole.take(n))) as nat,
                        (byte_len(whole) - byte_len(whole.take(n))) as nat,
                    )
                }
        }),
{
    let whole = flattened(body);
    let kept = head_kept(whole, 3000, 50000);
    lemma_head_kept(whole, 3000, 50000);
    lemma_head_kept_is_longest(whole, 3000, 50000);
    let n = kept.len() as int;
    assert(kept == whole.take(n));
    if n == whole.len() {
        assert(whole.take(n) =~= whole);
    } else {
        lemma_encode_concat(whole.take(n), whole.skip(n));
        assert(whole.take(n) + whole.skip(n) =~= whole);
        lemma_encode_one(whole.skip(n)[0]);
        lemma_encode_concat(whole.skip(n).take(1), whole.skip(n).skip(1));
        assert(whole.skip(n).take(1) + whole.skip(n).skip(1) =~= whole.skip(n));
        assert(whole.skip(n).take(1) =~= seq![whole.skip(n)[0]]);
        assert(byte_len(whole) > byte_len(kept));
    }
}

/// What is said of an answer that is cut names both numbers.
pub proof fn lemma_what_is_left_out_is_told(lines: nat, bytes: nat)
    ensures
        holds(notice(lines, bytes), dec(lines) + " more line(s)"@),
        holds(notice(lines, bytes), dec(bytes) + " bytes"@),
{
    reveal_strlit(" more line(s) (");
    reveal_strlit(" more line(s)");
    reveal_strlit(" bytes");
    reveal_strlit(
        " bytes) omitted to stay under the 3000-line / 50000-byte cap. Narrow the request (a more specific path, pattern, or range) and re-run the tool to see the rest.]",
    );
    let a = "\n\n[Output truncated: "@;
    let b = " more line(s) ("@;
    let c =
        " bytes) omitted to stay under the 3000-line / 50000-byte cap. Narrow the request (a more specific path, pattern, or range) and re-run the tool to see the rest.]"@;
    assert(b =~= " more line(s)"@ + b.skip(13));
    assert(c =~= " bytes"@ + c.skip(6));
    let n = notice(lines, bytes);
    assert(n =~= a + (dec(lines) + " more line(s)"@) + (b.skip(13) + dec(bytes) + c));
    assert(n =~= (a + dec(lines) + b) + (dec(bytes) + " bytes"@) + c.skip(6));
}

/// A text to be edited is asked to differ from what takes its place, and not to be empty.
pub proof fn lemma_edit_is_refused(old: Seq<char>, new: Seq<char>)
    ensures
        edit_refusal(old, new) is Some <==> old.len() == 0 || old == new,
{
}

/// An edit goes through where the file can be read as text and the old text stands there once, or at
/// several places that are all to be replaced; else the answer names the file.
pub proof fn lemma_edit_goes_through(display: Seq<char>, file: FileRead, args: EditArgs)
    ensures
        ({
            let places = located(file_text(file), args.old_string@).len();
            edit_problem(display, file, args) is None <==> {
                &&& file matches FileRead::Bytes(b) && valid_utf8(b@)
                &&& places == 1 || places > 1 && args.replace_all
            }
        }),
        unreadable_text(display, file) matches Some(why) ==> holds(why, display),
{
    if let Some(why) = unreadable_text(display, file) {
        match file {
            FileRead::Missing => {
                assert(why =~= Seq::empty() + display
                    + " 不存在，无法编辑；先用 write 创建它，或确认路径是否写错。"@);
            },
            FileRead::Failed(reason) => {
                assert(why =~= "读取 "@ + display + (" 失败："@ + reason@));
            },
            FileRead::Bytes(_) => {
                assert(why =~= Seq::empty() + display
                    + " 不是合法 UTF-8 文本，无法按文本编辑。"@);
            },
        }
    }
}

/// What is said of something that failed holds why it did, and the file that it was about.
pub proof fn lemma_failure_is_told(what: Failure, why: Seq<char>)
    requires
        what != Failure::GlobTask,
        what != Failure::GrepTask,
    ensures
        holds(failure_text(what, why), why),
        what matches Failure::Read(display) ==> holds(failure_text(what, why), display@),
        what matches Failure::ReadExisting(display) ==> holds(failure_text(what, why), display@),
        what matches Failure::Write(display) ==> holds(failure_text(what, why), display@),
{
    let said = failure_text(what, why);
    let front = said.take(said.len() - why.len());
    assert(said =~= front + why + Seq::empty());
    match what {
        Failure::Read(display) => {
            assert(said =~= "无法读取 '"@ + display@ + ("': "@ + why));
        },
        Failure::ReadExisting(display) => {
            assert(said =~= "读取既有文件 "@ + display@ + (" 失败："@ + why));
        },
        Failure::Write(display) => {
            assert(said =~= "写入 "@ + display@ + (" 失败："@ + why));
        },
        _ => {},
    }
}

/// The file that is written first has a name of its own: it starts with that of the file it is to
/// replace, is not the same, and two processes have two names.
pub proof fn lemma_temporary_name_is_free(name: Seq<char>, pid: nat, other: nat)
    ensures
        temporary_name(name, pid).len() > name.len(),
        temporary_name(name, pid).take(name.len() as int) == name,
        pid != other ==> temporary_name(name, pid) != temporary_name(name, other),
{
    reveal_strlit(".zcode.tmp-");
    let t = temporary_name(name, pid);
    assert(t.take(name.len() as int) =~= name);
    if t == temporary_name(name, other) {
        let front = name + ".zcode.tmp-"@;
        assert(dec(pid) =~= t.skip(front.len() as int));
        assert(dec(other) =~= t.skip(front.len() as int));
        lemma_dec_is_injective(pid, other);
    }
}

/// Each part of a text is in the whole.
proof fn lemma_parts(
    a: Seq<char>,
    x: Seq<char>,
    b: Seq<char>,
    y: Seq<char>,
    c: Seq<char>,
    z: Seq<char>,
    d: Seq<char>,
    e: Seq<char>,
    f: Seq<char>,
)
    ensures
        ({
            let s = a + x + b + y + c + z + (d + e) + f;
            holds(s, x) && holds(s, y + c) && holds(s, z + d)
        }),
{
    let s = a + x + b + y + c + z + (d + e) + f;
    assert(s =~= a + x + (b + y + c + z + (d + e) + f));
    assert(s =~= (a + x + b) + (y + c) + (z + (d + e) + f));
    assert(s =~= (a + x + b + y + c) + (z + d) + (e + f));
}

/// What is said of a new file names it, its size in bytes and how many lines it has.
pub proof fn lemma_new_file_is_told(display: Seq<char>, link: SymlinkResolution, new: Seq<char>)
    ensures
        ({
            let said = written_text(display, link, None, new);
            &&& holds(said, display)
            &&& holds(said, dec(byte_len(new)) + " 字节，"@)
            &&& holds(said, dec(line_count(new)) + " 行"@)
        }),
{
    let said = written_text(display, link, None, new);
    let front = match link_text(display, link) {
        Some(text) => text + "\n\n"@,
        None => Seq::empty(),
    };
    let end = " 行）。"@;
    assert(end == " 行"@ + end.skip(2)) by {
        reveal_strlit(" 行");
        reveal_strlit(" 行）。");
        assert(end =~= " 行"@ + end.skip(2));
    }
    lemma_parts(
        front + "已创建 "@,
        display,
        "（"@,
        dec(byte_len(new)),
        " 字节，"@,
        dec(line_count(new)),
        " 行"@,
        end.skip(2),
        Seq::empty(),
    );
    assert(said =~= said + Seq::<char>::empty());
}

/// What is said of a file that was written anew names it, its size in bytes before and after, and shows
/// what changed.
pub proof fn lemma_changed_file_is_told(
    display: Seq<char>,
    link: SymlinkResolution,
    former: Seq<u8>,
    new: Seq<char>,
)
    ensures
        ({
            let said = written_text(display, link, Some(former), new);
            &&& holds(said, display)
            &&& holds(said, dec(former.len()) + " 字节 → "@)
            &&& holds(said, dec(byte_len(new)) + " 字节）"@)
            &&& holds(said, diff_of(lossy(former), new, 3))
        }),
{
    let said = written_text(display, link, Some(former), new);
    let front = match link_text(display, link) {
        Some(text) => text + "\n\n"@,
        None => Seq::empty(),
    };
    let size = dec(byte_len(new));
    let diff = diff_of(lossy(former), new, 3);
    let was = dec(former.len());
    let arrow = " 字节 → "@;
    let end = " 字节）。"@;
    assert(end == " 字节）"@ + end.skip(4)) by {
        reveal_strlit(" 字节）");
        reveal_strlit(" 字节）。");
        assert(end =~= " 字节）"@ + end.skip(4));
    }
    let tail = if diff.len() > 0 {
        "\n\n"@ + diff
    } else {
        Seq::empty()
    };
    let short = front + "已覆写 "@ + display + "（"@ + was + arrow + size + end;
    lemma_parts(
        front + "已覆写 "@,
        display,
        "（"@,
        was,
        arrow,
        size,
        " 字节）"@,
        end.skip(4),
        tail,
    );
    if diff.len() > 0 {
        assert(said == short + "\n\n"@ + diff);
        assert(said =~= short + tail);
        assert(said =~= (short + "\n\n"@) + diff + Seq::empty());
    } else {
        assert(said =~= short + tail);
        assert(said =~= said + diff + Seq::empty());
    }
}

/// What is said of a file that was written through a link names the file that the link leads to.
pub proof fn lemma_link_is_told(
    display: Seq<char>,
    link: SymlinkResolution,
    former: Option<Seq<u8>>,
    new: Seq<char>,
)
    requires
        link.was_symlink,
        link.resolved,
    ensures
        holds(written_text(display, link, former, new), link.path@),
{
    let said = written_text(display, link, former, new);
    let text = link_text(display, link)->0;
    lemma_holds(
        display + " 是符号链接，已写穿到真实路径 "@,
        link.path@,
        "（tmp+rename 若直接落在链接名上会把链接本身换成普通文件）。"@,
    );
    let rest = said.skip(text.len() as int);
    assert(said =~= Seq::empty() + text + rest);
    lemma_holds_within(Seq::empty(), text, rest, link.path@);
}

proof fn lemma_kept_are_trimmed(pieces: Seq<Seq<char>>)
    ensures
        kept_pieces(pieces) == pieces.map_values(|p: Seq<char>| trim(p)).filter(
            |p: Seq<char>| p.len() > 0,
        ),
    decreases pieces.len(),
{
    let m = pieces.map_values(|p: Seq<char>| trim(p));
    reveal(Seq::filter);
    if pieces.len() > 0 {
        lemma_kept_are_trimmed(pieces.drop_last());
        assert(m.drop_last() =~= pieces.drop_last().map_values(|p: Seq<char>| trim(p)));
        assert(m.last() == trim(pieces.last()));
    }
}

/// The targets of a search are what stands between the semicolons, without the white space around it
/// and without those that hold nothing else, in their order; where there is none, the place itself.
pub proof fn lemma_targets_stand_between_semicolons(raw: Seq<char>)
    ensures
        ({
            let named = split_on(raw, ';').map_values(|p: Seq<char>| trim(p)).filter(
                |p: Seq<char>| p.len() > 0,
            );
            &&& named.len() > 0 ==> targets(raw) == named
            &&& named.len() == 0 ==> targets(raw) == seq!["."@]
        }),
{
    lemma_kept_are_trimmed(split_on(raw, ';'));
}

/// Whether a target of the list is there, or not.
pub open spec fn is_one(l: Seq<TargetView>, exists_at: Seq<bool>, there: bool, t: TargetView) -> bool {
    exists|i: int| 0 <= i < l.len() && exists_at[i] == there && #[trigger] l[i] == t
}

/// A target is searched only where it is there.
pub proof fn lemma_only_what_is_there_is_searched(l: Seq<TargetView>, exists_at: Seq<bool>)
    requires
        l.len() <= exists_at.len(),
    ensures
        forall|k: int|
            0 <= k < existing(l, exists_at).len() ==> is_one(
                l,
                exists_at,
                true,
                #[trigger] existing(l, exists_at)[k],
            ),
    decreases l.len(),
{
    let all = existing(l, exists_at);
    if l.len() > 0 {
        let front = l.drop_last();
        lemma_only_what_is_there_is_searched(front, exists_at);
        assert forall|k: int| 0 <= k < all.len() implies is_one(l, exists_at, true, #[trigger] all[k]) by {
            if k < existing(front, exists_at).len() {
                assert(all[k] == existing(front, exists_at)[k]);
                let i = choose|i: int|
                    0 <= i < front.len() && exists_at[i] == true && #[trigger] front[i] == all[k];
                assert(l[i] == all[k]);
            } else {
                assert(l[l.len() - 1] == all[k]);
            }
        }
    }
}

/// A target is told to be lacking only where it is not there.
pub proof fn lemma_only_what_is_lacking_is_told(l: Seq<TargetView>, exists_at: Seq<bool>, k: int)
    requires
        l.len() <= exists_at.len(),
        0 <= k < lacking(l, exists_at).len(),
    ensures
        exists|t: TargetView| #[trigger]
            is_one(l, exists_at, false, t) && t.raw == lacking(l, exists_at)[k],
    decreases l.len(),
{
    let all = lacking(l, exists_at);
    let front = l.drop_last();
    if k < lacking(front, exists_at).len() {
        lemma_only_what_is_lacking_is_told(front, exists_at, k);
        let t = choose|t: TargetView| #[trigger]
            is_one(front, exists_at, false, t) && t.raw == all[k];
        let i = choose|i: int|
            0 <= i < front.len() && exists_at[i] == false && #[trigger] front[i] == t;
        assert(l[i] == t);
        assert(is_one(l, exists_at, false, t));
    } else {
        assert(l[l.len() - 1] == l.last());
        assert(is_one(l, exists_at, false, l.last()));
    }
}

/// A file is not written where nothing is to be written, none of that name is there, and the name is
/// one under which lines of another file could be read; in each other case it is written.
pub proof fn lemma_reading_is_not_writing(path: Seq<char>, content: Seq<char>, missing: bool)
    ensures
        is_misfire(path, content, missing) <==> {
            &&& content.len() == 0
            &&& missing
            &&& selector_colon(path) matches Some(i) && selector_problem(path.skip(i + 1)) is None
        },
        ({
            let said = misfire_text(path, path.skip(selector_colon(path)->0 + 1));
            holds(said, path)
        }),
{
    let sel = path.skip(selector_colon(path)->0 + 1);
    let said = misfire_text(path, sel);
    let rest = said.skip(("write 的目标 '"@ + path).len() as int);
    assert(said =~= "write 的目标 '"@ + path + rest);
}

} // verus!
