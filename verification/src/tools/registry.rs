//! Which tools there are.

use vstd::prelude::*;

use crate::schema::error::{error_text, SchemaError};
use crate::strings::{str_eq, texts};

verus! {

broadcast use vstd::seq::group_seq_axioms;

/// The tools that there can be, in the order in which they are set up.
pub open spec fn known() -> Seq<Seq<char>> {
    seq![
        "read"@,
        "ls"@,
        "write"@,
        "edit"@,
        "bash"@,
        "glob"@,
        "grep"@,
        "todo"@,
    ]
}

/// The tools that there can be.
pub fn known_tool_names() -> (r: Vec<String>)
    ensures
        texts(r@) == known(),
{
    let mut r: Vec<String> = Vec::new();
    r.push("read".to_owned());
    r.push("ls".to_owned());
    r.push("write".to_owned());
    r.push("edit".to_owned());
    r.push("bash".to_owned());
    r.push("glob".to_owned());
    r.push("grep".to_owned());
    r.push("todo".to_owned());
    assert(texts(r@) =~= known());
    r
}

/// The texts of a list that are not in another.
pub open spec fn without(l: Seq<Seq<char>>, other: Seq<Seq<char>>) -> Seq<Seq<char>>
    decreases l.len(),
{
    if l.len() == 0 {
        l
    } else if other.contains(l.last()) {
        without(l.drop_last(), other)
    } else {
        without(l.drop_last(), other).push(l.last())
    }
}

/// Whether a text is in a list.
fn is_in(l: &Vec<String>, s: &str) -> (r: bool)
    ensures
        r == texts(l@).contains(s@),
{
    let ghost all = texts(l@);
    let mut i: usize = 0;
    while i < l.len()
        invariant
            i <= l@.len(),
            all == texts(l@),
            forall|j: int| 0 <= j < i ==> all[j] != s@,
        decreases l@.len() - i,
    {
        assert(all[i as int] == l@[i as int]@);
        if str_eq(l[i].as_str(), s) {
            return true;
        }
        i += 1;
    }
    false
}

/// The texts of a list that are not in another.
fn difference(l: &Vec<String>, other: &Vec<String>) -> (r: Vec<String>)
    ensures
        texts(r@) == without(texts(l@), texts(other@)),
{
    let ghost all = texts(l@);
    let mut r: Vec<String> = Vec::new();
    let n: usize = l.len();
    let mut i: usize = 0;
    assert(texts(r@) =~= all.take(0));
    while i < n
        invariant
            i <= n,
            n == l@.len(),
            all == texts(l@),
            texts(r@) == without(all.take(i as int), texts(other@)),
        decreases n - i,
    {
        proof {
            assert(all.take(i + 1).drop_last() =~= all.take(i as int));
            assert(all.take(i + 1).last() == l@[i as int]@);
        }
        let ghost before = texts(r@);
        if !is_in(other, l[i].as_str()) {
            r.push(l[i].clone());
            assert(texts(r@) =~= before.push(l@[i as int]@));
        }
        i += 1;
    }
    assert(all.take(n as int) =~= all);
    r
}

/// The tools that are set up, where some are switched off.
pub fn enabled_tools(disabled: &Vec<String>) -> (r: Vec<String>)
    ensures
        texts(r@) == without(known(), texts(disabled@)),
{
    let names = known_tool_names();
    difference(&names, disabled)
}

/// The names that are switched off and that no tool has: they are no error.
pub fn unknown_tools(disabled: &Vec<String>) -> (r: Vec<String>)
    ensures
        texts(r@) == without(texts(disabled@), known()),
{
    let names = known_tool_names();
    difference(disabled, &names)
}

/// Why the tools cannot be set up.
#[derive(Debug, Clone, PartialEq, Eq)]
pub enum ToolInitError {
    /// A tool's parameters are described wrongly.
    Schema { tool: String, source: SchemaError },
    /// Two tools have one name.
    Duplicate { name: String },
}

/// What is said of it.
pub open spec fn init_error_text(e: ToolInitError) -> Seq<char> {
    match e {
        ToolInitError::Schema { tool, source } => "工具 `"@ + tool@ + "` 的参数 schema 编译失败："@
            + error_text(source@),
        ToolInitError::Duplicate { name } => "工具名 `"@ + name@ + "` 被重复注册"@,
    }
}

impl ToolInitError {
    /// The error in words.
    pub fn to_string(&self) -> (r: String)
        ensures
            r@ == init_error_text(*self),
    {
        match self {
            ToolInitError::Schema { tool, source } => {
                let mut r = "工具 `".to_owned();
                r.append(tool.as_str());
                r.append("` 的参数 schema 编译失败：");
                let why = source.to_string();
                r.append(why.as_str());
                r
            },
            ToolInitError::Duplicate { name } => {
                let mut r = "工具名 `".to_owned();
                r.append(name.as_str());
                r.append("` 被重复注册");
                r
            },
        }
    }
}

/// What comes of setting up a tool. `outcome` is whether another one had the name, or what is wrong
/// with its parameters.
pub fn registered(name: &str, outcome: Result<bool, SchemaError>) -> (r: Result<(), ToolInitError>)
    ensures
        match outcome {
            Ok(false) => r is Ok,
            Ok(true) => r matches Err(ToolInitError::Duplicate { name: n }) && n@ == name@,
            Err(e) => r matches Err(ToolInitError::Schema { tool, source }) && tool@ == name@
                && source == e,
        },
{
    match outcome {
        Ok(false) => Ok(()),
        Ok(true) => Err(ToolInitError::Duplicate { name: name.to_owned() }),
        Err(source) => Err(ToolInitError::Schema { tool: name.to_owned(), source }),
    }
}

// Laws

proof fn lemma_without(l: Seq<Seq<char>>, other: Seq<Seq<char>>, s: Seq<char>)
    ensures
        without(l, other).contains(s) == (l.contains(s) && !other.contains(s)),
    decreases l.len(),
{
    if l.len() > 0 {
        let front = l.drop_last();
        let kept = without(front, other);
        let r = without(l, other);
        lemma_without(front, other, s);
        if l.contains(s) {
            let i = choose|i: int| 0 <= i < l.len() && l[i] == s;
            if i < front.len() {
                assert(front[i] == s);
            }
        }
        if front.contains(s) {
            let i = choose|i: int| 0 <= i < front.len() && front[i] == s;
            assert(l[i] == s);
        }
        if kept.contains(s) {
            let i = choose|i: int| 0 <= i < kept.len() && kept[i] == s;
            assert(r[i] == s);
        }
        if !other.contains(l.last()) {
            assert(r[kept.len() as int] == l.last());
            if r.contains(s) {
                let i = choose|i: int| 0 <= i < r.len() && r[i] == s;
                if i < kept.len() {
                    assert(kept[i] == s);
                } else {
                    assert(l[l.len() - 1] == s);
                }
            }
        }
    }
}

/// A tool is set up where it is one of those that there can be and is not switched off.
pub proof fn lemma_enabled(disabled: Seq<Seq<char>>, name: Seq<char>)
    ensures
        without(known(), disabled).contains(name) == (known().contains(name) && !disabled.contains(
            name,
        )),
{
    lemma_without(known(), disabled, name);
}

/// No two tools have the same name.
pub proof fn lemma_names_differ(i: int, j: int)
    requires
        0 <= i < j < known().len(),
    ensures
        known()[i] != known()[j],
{
    reveal_strlit("read");
    reveal_strlit("ls");
    reveal_strlit("write");
    reveal_strlit("edit");
    reveal_strlit("bash");
    reveal_strlit("glob");
    reveal_strlit("grep");
    reveal_strlit("todo");
    let l = known();
    assert(l[0][0] == 'r' && l[3][0] == 'e' && l[4][0] == 'b' && l[7][0] == 't');
    assert(l[1].len() == 2 && l[2].len() == 5);
    assert(l[5][1] == 'l' && l[6][1] == 'r' && l[5][0] == 'g' && l[6][0] == 'g');
}

} // verus!
