//! What holds of running commands: how long they may take, what they are called, and what is told.

use vstd::prelude::*;

use crate::regexes::found;
use crate::strings::{dec, holds, is_space, joined, lemma_holds};
use crate::tools::bash::{
    critical_list, failure_text, is_critical, timeout_text, title_of, told, within_limits, words,
};
use crate::utf8::lossy;

verus! {

broadcast use vstd::seq::group_seq_axioms;

/// A command is given between a second and an hour: a time between these is obeyed, and any other one
/// is brought to the nearer of the two.
pub proof fn lemma_time_is_obeyed(requested: u64)
    ensures
        1 <= within_limits(requested) <= 3600,
        1 <= requested <= 3600 ==> within_limits(requested) == requested,
        requested < 1 ==> within_limits(requested) == 1,
        requested > 3600 ==> within_limits(requested) == 3600,
{
}

/// Somebody has to agree to a command just where one of the expressions is found in it; to none there
/// is nothing to agree to.
pub proof fn lemma_who_has_to_agree(command: Seq<char>)
    ensures
        is_critical(command) <==> command.len() > 0 && exists|i: int|
            0 <= i < 20 && found(#[trigger] critical_list()[i], command),
        critical_list().len() == 20,
{
    assert(critical_list().len() == 20);
}

// The title

/// Whether a text is a word: it has characters, and no white space.
pub open spec fn is_word(s: Seq<char>) -> bool {
    s.len() > 0 && forall|i: int| 0 <= i < s.len() ==> !is_space(#[trigger] s[i])
}

proof fn lemma_word_alone(s: Seq<char>)
    requires
        is_word(s),
    ensures
        words(s) == seq![s],
    decreases s.len(),
{
    let t = s.drop_last();
    assert(!is_space(s[s.len() - 1]));
    if s.len() == 1 {
        assert(t =~= Seq::<char>::empty());
        assert(words(t) =~= Seq::<Seq<char>>::empty());
        assert(words(s) =~= seq![seq![s.last()]]);
        assert(seq![s.last()] =~= s);
    } else {
        assert forall|i: int| 0 <= i < t.len() implies !is_space(#[trigger] t[i]) by {
            assert(t[i] == s[i]);
        }
        lemma_word_alone(t);
        assert(!is_space(s[s.len() - 2]));
        assert(seq![t].drop_last() =~= Seq::<Seq<char>>::empty());
        assert(t.push(s.last()) =~= s);
        assert(words(s) =~= seq![s]);
    }
}

proof fn lemma_words_behind(a: Seq<char>, b: Seq<char>)
    requires
        is_word(b),
        a.len() > 0 ==> is_space(a.last()),
    ensures
        words(a + b) == words(a).push(b),
    decreases b.len(),
{
    let s = a + b;
    let t = b.drop_last();
    assert(s.drop_last() =~= a + t);
    assert(s.last() == b.last());
    assert(!is_space(b[b.len() - 1]));
    if b.len() == 1 {
        assert(a + t =~= a);
        assert(seq![b.last()] =~= b);
        if a.len() > 0 {
            assert(s[s.len() - 2] == a.last());
        }
    } else {
        assert forall|i: int| 0 <= i < t.len() implies !is_space(#[trigger] t[i]) by {
            assert(t[i] == b[i]);
        }
        lemma_words_behind(a, t);
        assert(s[s.len() - 2] == b[b.len() - 2]);
        assert(!is_space(b[b.len() - 2]));
        assert(t.push(b.last()) =~= b);
        assert(words(a).push(t).drop_last() =~= words(a));
    }
}

/// The words of a text: none has none, white space at the end of a text changes nothing, and a word
/// at the end of a text, behind white space or at its start, is one more.
pub proof fn lemma_words_are_parted(text: Seq<char>, c: char, word: Seq<char>)
    requires
        is_space(c),
        is_word(word),
    ensures
        words(Seq::empty()) == Seq::<Seq<char>>::empty(),
        words(word) == seq![word],
        words(text.push(c)) == words(text),
        words(text.push(c) + word) == words(text).push(word),
{
    lemma_word_alone(word);
    assert(text.push(c).drop_last() =~= text);
    lemma_words_behind(text.push(c), word);
}

/// A title has the words of the command, one space between them: all of them where that is no more than
/// sixty characters, and else the first sixty characters and a sign that there are more.
pub proof fn lemma_title_is_short(command: Seq<char>)
    ensures
        title_of(command).len() <= 61,
        joined(words(command), " "@).len() <= 60 ==> title_of(command) == joined(words(command), " "@),
        joined(words(command), " "@).len() > 60 ==> title_of(command) == joined(
            words(command),
            " "@,
        ).take(60) + seq!['…'],
{
    let flat = joined(words(command), " "@);
    if flat.len() > 60 {
        assert(flat.take(60).push('…') =~= flat.take(60) + seq!['…']);
    }
}

// What is told

/// What is told of a run starts with the command, and then has all that it wrote; where bytes were left
/// out it tells how many, and only there.
pub proof fn lemma_run_is_told(label: Seq<char>, buffer: Seq<u8>, dropped: nat)
    ensures
        dropped == 0 ==> told(label, buffer, dropped) == "$ "@ + label + "\n"@ + lossy(buffer),
        holds(told(label, buffer, dropped), "$ "@ + label + "\n"@ + lossy(buffer)),
        dropped > 0 ==> holds(told(label, buffer, dropped), "[已丢弃 "@ + dec(dropped)),
{
    let whole = told(label, buffer, dropped);
    let front = "$ "@ + label + "\n"@ + lossy(buffer);
    let none = Seq::<char>::empty();
    assert(whole =~= none + front + whole.skip(front.len() as int));
    lemma_holds(none, front, whole.skip(front.len() as int));
    if dropped > 0 {
        let part = "[已丢弃 "@ + dec(dropped);
        reveal_strlit("\n\n[已丢弃 ");
        reveal_strlit("\n\n");
        reveal_strlit("[已丢弃 ");
        assert("\n\n[已丢弃 "@ =~= "\n\n"@ + "[已丢弃 "@);
        let a = front + "\n\n"@;
        let back = whole.skip((a + part).len() as int);
        assert(whole =~= a + part + back);
        lemma_holds(a, part, back);
    }
}

/// A run that took too long, or failed, is told like any other, and behind that after how many seconds
/// it was stopped, or with which code it ended.
pub proof fn lemma_end_of_a_run_is_told(
    label: Seq<char>,
    buffer: Seq<u8>,
    dropped: nat,
    seconds: nat,
    code: i32,
)
    ensures
        holds(timeout_text(label, buffer, dropped, seconds), told(label, buffer, dropped)),
        holds(timeout_text(label, buffer, dropped, seconds), "[命令超过 "@ + dec(seconds) + " 秒超时上限"@),
        holds(failure_text(label, buffer, dropped, Some(code)), told(label, buffer, dropped)),
        code >= 0 ==> holds(
            failure_text(label, buffer, dropped, Some(code)),
            "[退出码: "@ + dec(code as nat) + "]"@,
        ),
        code < 0 ==> holds(
            failure_text(label, buffer, dropped, Some(code)),
            "[退出码: -"@ + dec((-code) as nat) + "]"@,
        ),
        holds(failure_text(label, buffer, dropped, None), "[退出码: 未知"@),
{
    let none = Seq::<char>::empty();
    let front = told(label, buffer, dropped);
    let late = timeout_text(label, buffer, dropped, seconds);
    assert(late =~= none + front + late.skip(front.len() as int));
    lemma_holds(none, front, late.skip(front.len() as int));
    reveal_strlit("\n\n[命令超过 ");
    reveal_strlit("\n\n");
    reveal_strlit("[命令超过 ");
    reveal_strlit(" 秒超时上限，已终止整个进程树（不只是 shell 本身）]");
    reveal_strlit(" 秒超时上限");
    reveal_strlit("，已终止整个进程树（不只是 shell 本身）]");
    assert("\n\n[命令超过 "@ =~= "\n\n"@ + "[命令超过 "@);
    assert(" 秒超时上限，已终止整个进程树（不只是 shell 本身）]"@ =~= " 秒超时上限"@
        + "，已终止整个进程树（不只是 shell 本身）]"@);
    let part = "[命令超过 "@ + dec(seconds) + " 秒超时上限"@;
    let back = "，已终止整个进程树（不只是 shell 本身）]"@;
    assert(late =~= (front + "\n\n"@) + part + back);
    lemma_holds(front + "\n\n"@, part, back);
    let failed = failure_text(label, buffer, dropped, Some(code));
    assert(failed =~= none + front + failed.skip(front.len() as int));
    lemma_holds(none, front, failed.skip(front.len() as int));
    reveal_strlit("\n\n[退出码: ");
    reveal_strlit("[退出码: ");
    reveal_strlit("[退出码: -");
    reveal_strlit("-");
    reveal_strlit("[退出码: 未知");
    reveal_strlit("未知（进程被信号终止）");
    reveal_strlit("未知");
    reveal_strlit("（进程被信号终止）");
    assert("\n\n[退出码: "@ =~= "\n\n"@ + "[退出码: "@);
    assert("[退出码: -"@ =~= "[退出码: "@ + "-"@);
    assert("[退出码: 未知"@ =~= "[退出码: "@ + "未知"@);
    assert("未知（进程被信号终止）"@ =~= "未知"@ + "（进程被信号终止）"@);
    if code >= 0 {
        let said = "[退出码: "@ + dec(code as nat) + "]"@;
        assert(failed =~= (front + "\n\n"@) + said + none);
        lemma_holds(front + "\n\n"@, said, none);
    } else {
        let said = "[退出码: -"@ + dec((-code) as nat) + "]"@;
        assert(failed =~= (front + "\n\n"@) + said + none);
        lemma_holds(front + "\n\n"@, said, none);
    }
    let killed = failure_text(label, buffer, dropped, None);
    let said = "[退出码: 未知"@;
    let rest = "（进程被信号终止）"@ + "]"@;
    assert(killed =~= (front + "\n\n"@) + said + rest);
    lemma_holds(front + "\n\n"@, said, rest);
}

} // verus!
