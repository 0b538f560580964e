//! The tool that lists what is in a directory.

use vstd::prelude::*;

use crate::schema::json::{member, Json};
use crate::strings::{dec, opt_view, push_dec, str_eq, texts};
use crate::tools::approval::{ApprovalDecision, Concurrency, Tier};
use crate::tools::grep::{flag_at, flag_of, path_arg, raw_path};
use crate::tools::output::{cleaned, error, finish, ToolError, ToolOutput};
use crate::workspace::{
    displayed, is_inside, led, normal, parts_view, path_text, to_text, Part, PathError, Workspace,
};

verus! {

broadcast use vstd::seq::group_seq_axioms;

/// How deep a listing goes.
pub const LS_MAX_DEPTH: usize = 5;

/// How many entries a listing has.
pub const LS_MAX_ENTRIES: usize = 100;

// The walk

/// How far a walk goes.
#[derive(Debug, Clone, Copy, PartialEq, Eq, Structural)]
pub struct WalkOptions {
    /// How deep; what is in the directory itself is at depth one.
    pub max_depth: usize,
    /// How many entries of one directory.
    pub per_dir_limit: usize,
    /// How many entries in all.
    pub max_entries: usize,
    /// Whether ignored and hidden entries are left out.
    pub respect_gitignore: bool,
}

/// An entry of a walk.
#[derive(Debug, Clone, PartialEq, Eq)]
pub struct WalkEntry {
    /// The names on the way to it.
    pub relative: Vec<String>,
    pub depth: usize,
    pub is_dir: bool,
}

/// What a [`WalkEntry`] is.
#[verifier::ext_equal]
pub struct EntryView {
    pub relative: Seq<Seq<char>>,
    pub depth: usize,
    pub is_dir: bool,
}

impl View for WalkEntry {
    type V = EntryView;

    open spec fn view(&self) -> EntryView {
        EntryView { relative: texts(self.relative@), depth: self.depth, is_dir: self.is_dir }
    }
}

/// What entries are.
pub open spec fn entries_view(l: Seq<WalkEntry>) -> Seq<EntryView> {
    Seq::new(l.len(), |i: int| l[i]@)
}

/// What came of a walk.
#[derive(Debug, Clone)]
pub struct WalkResult {
    pub entries: Vec<WalkEntry>,
    /// Whether entries were left out because there were too many.
    pub truncated: bool,
}

/// A walk.
#[derive(Debug)]
pub struct Walk {
    pub options: WalkOptions,
    pub entries: Vec<WalkEntry>,
    /// The directories that were left out.
    pub skipped: Vec<Vec<String>>,
    pub truncated: bool,
}

/// What a [`Walk`] is.
#[verifier::ext_equal]
pub struct WalkView {
    pub entries: Seq<EntryView>,
    pub skipped: Seq<Seq<Seq<char>>>,
    pub truncated: bool,
}

/// What ways are.
pub open spec fn ways(l: Seq<Vec<String>>) -> Seq<Seq<Seq<char>>> {
    Seq::new(l.len(), |i: int| texts(l[i]@))
}

impl View for Walk {
    type V = WalkView;

    open spec fn view(&self) -> WalkView {
        WalkView {
            entries: entries_view(self.entries@),
            skipped: ways(self.skipped@),
            truncated: self.truncated,
        }
    }
}

/// Whether a way starts with another.
pub open spec fn starts_with(way: Seq<Seq<char>>, front: Seq<Seq<char>>) -> bool {
    front.len() <= way.len() && way.take(front.len() as int) == front
}

/// Whether a way leads into a directory that was left out.
pub open spec fn is_skipped(skipped: Seq<Seq<Seq<char>>>, way: Seq<Seq<char>>) -> bool {
    exists|i: int| 0 <= i < skipped.len() && starts_with(way, #[trigger] skipped[i])
}

/// The directory that an entry is in.
pub open spec fn parent_of(way: Seq<Seq<char>>) -> Seq<Seq<char>> {
    way.drop_last()
}

/// How many entries are in a directory.
pub open spec fn count_in(l: Seq<EntryView>, parent: Seq<Seq<char>>) -> nat
    decreases l.len(),
{
    if l.len() == 0 {
        0
    } else {
        count_in(l.drop_last(), parent) + if parent_of(l.last().relative) == parent {
            1nat
        } else {
            0nat
        }
    }
}

/// A walk after one more entry, and whether it goes on. The directory itself is no entry.
pub open spec fn offered(w: WalkView, o: WalkOptions, e: EntryView) -> (bool, WalkView) {
    if e.relative.len() == 0 {
        (true, w)
    } else if w.entries.len() >= o.max_entries {
        (false, WalkView { truncated: true, ..w })
    } else if is_skipped(w.skipped, e.relative) {
        (true, w)
    } else if count_in(w.entries, parent_of(e.relative)) >= o.per_dir_limit {
        (
            true,
            WalkView {
                skipped: if e.is_dir {
                    w.skipped.push(e.relative)
                } else {
                    w.skipped
                },
                truncated: true,
                ..w
            },
        )
    } else {
        (true, WalkView { entries: w.entries.push(e), ..w })
    }
}

/// Whether a way starts with another.
fn leads_into(way: &Vec<String>, front: &Vec<String>) -> (r: bool)
    ensures
        r == starts_with(texts(way@), texts(front@)),
{
    let ghost a = texts(way@);
    let ghost b = texts(front@);
    if front.len() > way.len() {
        return false;
    }
    let mut i: usize = 0;
    while i < front.len()
        invariant
            i <= front@.len() <= way@.len(),
            a == texts(way@),
            b == texts(front@),
            forall|j: int| 0 <= j < i ==> a[j] == b[j],
        decreases front@.len() - i,
    {
        assert(a[i as int] == way@[i as int]@ && b[i as int] == front@[i as int]@);
        if !str_eq(way[i].as_str(), front[i].as_str()) {
            assert(a.take(b.len() as int)[i as int] != b[i as int]);
            return false;
        }
        i += 1;
    }
    assert(a.take(b.len() as int) =~= b);
    true
}

/// Whether two entries are in the same directory.
fn same_parent(a: &Vec<String>, b: &Vec<String>) -> (r: bool)
    requires
        b@.len() > 0,
    ensures
        r == (a@.len() > 0 && parent_of(texts(a@)) == parent_of(texts(b@))),
{
    let ghost x = texts(a@);
    let ghost y = texts(b@);
    if a.len() != b.len() {
        assert(a@.len() > 0 ==> x.drop_last().len() != y.drop_last().len());
        return false;
    }
    let n: usize = a.len() - 1;
    let mut i: usize = 0;
    while i < n
        invariant
            i <= n,
            n == a@.len() - 1 == b@.len() - 1,
            x == texts(a@),
            y == texts(b@),
            forall|j: int| 0 <= j < i ==> x[j] == y[j],
        decreases n - i,
    {
        assert(x[i as int] == a@[i as int]@ && y[i as int] == b@[i as int]@);
        if !str_eq(a[i].as_str(), b[i].as_str()) {
            assert(x.drop_last()[i as int] != y.drop_last()[i as int]);
            return false;
        }
        i += 1;
    }
    assert(x.drop_last() =~= y.drop_last());
    true
}

impl Walk {
    /// Whether each entry has a name.
    pub open spec fn wf(&self) -> bool {
        forall|i: int| 0 <= i < self.entries@.len() ==> (#[trigger] self.entries@[i]).relative@.len() > 0
    }

    /// A walk that has not begun.
    pub fn new(options: WalkOptions) -> (r: Self)
        ensures
            r.wf(),
            r.options == options,
            r@ == (WalkView {
                entries: Seq::empty(),
                skipped: Seq::empty(),
                truncated: false,
            }),
    {
        let r = Walk { options, entries: Vec::new(), skipped: Vec::new(), truncated: false };
        assert(r@ =~= (WalkView {
            entries: Seq::empty(),
            skipped: Seq::empty(),
            truncated: false,
        }));
        r
    }

    /// How many entries are in the directory of another one.
    fn siblings(&self, relative: &Vec<String>) -> (r: usize)
        requires
            self.wf(),
            relative@.len() > 0,
        ensures
            r == count_in(self@.entries, parent_of(texts(relative@))),
    {
        let ghost all = self@.entries;
        let n: usize = self.entries.len();
        let mut r: usize = 0;
        let mut i: usize = 0;
        assert(all.take(0) =~= Seq::<EntryView>::empty());
        while i < n
            invariant
                self.wf(),
                relative@.len() > 0,
                i <= n,
                n == self.entries@.len(),
                all == self@.entries,
                r <= i,
                r == count_in(all.take(i as int), parent_of(texts(relative@))),
            decreases n - i,
        {
            proof {
                assert(all.take(i + 1).drop_last() =~= all.take(i as int));
                assert(all.take(i + 1).last() == self.entries@[i as int]@);
            }
            if same_parent(&self.entries[i].relative, relative) {
                r += 1;
            }
            i += 1;
        }
        assert(all.take(n as int) =~= all);
        r
    }

    /// Takes the next entry: they come with directories before what is in them. Says whether the
    /// walk goes on.
    pub fn offer(&mut self, entry: WalkEntry) -> (r: bool)
        requires
            old(self).wf(),
        ensures
            final(self).wf(),
            final(self).options == old(self).options,
            (r, final(self)@) == offered(old(self)@, old(self).options, entry@),
    {
        if entry.relative.len() == 0 {
            return true;
        }
        if self.entries.len() >= self.options.max_entries {
            self.truncated = true;
            return false;
        }
        let ghost before = self@;
        let mut i: usize = 0;
        while i < self.skipped.len()
            invariant
                i <= self.skipped@.len(),
                *self == *old(self),
                self.wf(),
                self@ == before,
                entry.relative@.len() > 0,
                before.entries.len() < self.options.max_entries,
                before.skipped == ways(self.skipped@),
                forall|j: int|
                    0 <= j < i ==> !starts_with(entry@.relative, #[trigger] before.skipped[j]),
            decreases self.skipped@.len() - i,
        {
            assert(before.skipped[i as int] == texts(self.skipped@[i as int]@));
            if leads_into(&entry.relative, &self.skipped[i]) {
                return true;
            }
            i += 1;
        }
        if self.siblings(&entry.relative) >= self.options.per_dir_limit {
            self.truncated = true;
            if entry.is_dir {
                let ghost way = texts(entry.relative@);
                self.skipped.push(entry.relative);
                assert(ways(self.skipped@) =~= before.skipped.push(way));
            }
            return true;
        }
        self.entries.push(entry);
        assert(entries_view(self.entries@) =~= before.entries.push(entry@));
        true
    }

    /// What came of it.
    pub fn finish(self) -> (r: WalkResult)
        ensures
            entries_view(r.entries@) == self@.entries,
            r.truncated == self@.truncated,
    {
        WalkResult { entries: self.entries, truncated: self.truncated }
    }
}

// The listing

/// As many times two spaces.
pub open spec fn indent(n: nat) -> Seq<char>
    decreases n,
{
    if n == 0 {
        Seq::empty()
    } else {
        indent((n - 1) as nat) + "  "@
    }
}

/// The line of an entry.
pub open spec fn entry_line(e: EntryView) -> Seq<char> {
    indent(
        if e.depth > 0 {
            (e.depth - 1) as nat
        } else {
            0
        },
    ) + (if e.relative.len() > 0 {
        e.relative.last()
    } else {
        Seq::empty()
    }) + (if e.is_dir {
        "/"@
    } else {
        ""@
    }) + "\n"@
}

/// The lines of entries.
pub open spec fn entry_lines(l: Seq<EntryView>) -> Seq<char>
    decreases l.len(),
{
    if l.len() == 0 {
        Seq::empty()
    } else {
        entry_lines(l.drop_last()) + entry_line(l.last())
    }
}

/// How many entries are directories.
pub open spec fn dirs(l: Seq<EntryView>) -> nat
    decreases l.len(),
{
    if l.len() == 0 {
        0
    } else {
        dirs(l.drop_last()) + if l.last().is_dir {
            1nat
        } else {
            0nat
        }
    }
}

/// A listing.
pub open spec fn listing(root: Seq<char>, l: Seq<EntryView>, truncated: bool) -> Seq<char> {
    let front = root + "/\n"@;
    if l.len() == 0 {
        front + "(空目录)"@
    } else {
        front + entry_lines(l) + (if truncated {
            "\n(已截断：最多显示 100 条，每个目录最多展开若干条子项)\n"@
        } else {
            Seq::empty()
        }) + "\n"@ + dec((l.len() - dirs(l)) as nat) + " 个文件，"@ + dec(dirs(l)) + " 个目录"@
    }
}

/// Appends the line of an entry.
fn push_entry(body: &mut String, e: &WalkEntry)
    ensures
        final(body)@ == old(body)@ + entry_line(e@),
{
    let ghost start = body@;
    let n: usize = if e.depth > 0 {
        e.depth - 1
    } else {
        0
    };
    let mut i: usize = 0;
    assert(body@ =~= start + indent(0));
    while i < n
        invariant
            i <= n,
            body@ == start + indent(i as nat),
        decreases n - i,
    {
        body.append("  ");
        i += 1;
        assert(body@ =~= start + indent(i as nat));
    }
    let k: usize = e.relative.len();
    if k > 0 {
        assert(e@.relative.last() == e.relative@[k - 1]@);
        body.append(e.relative[k - 1].as_str());
    }
    if e.is_dir {
        body.append("/");
    } else {
        body.append("");
    }
    body.append("\n");
    assert(body@ =~= start + entry_line(e@));
}

/// A listing: what is in each directory stands below it, further to the right.
pub fn render(display_root: &str, result: &WalkResult) -> (r: String)
    ensures
        r@ == listing(display_root@, entries_view(result.entries@), result.truncated),
{
    let ghost all = entries_view(result.entries@);
    let mut body = display_root.to_owned();
    body.append("/\n");
    let n: usize = result.entries.len();
    assert(all.len() == n);
    if n == 0 {
        body.append("(空目录)");
        return body;
    }
    let ghost front = body@;
    let mut file_count: usize = 0;
    let mut dir_count: usize = 0;
    let mut i: usize = 0;
    assert(all.take(0) =~= Seq::<EntryView>::empty());
    assert(body@ =~= front + entry_lines(all.take(0)));
    while i < n
        invariant
            i <= n,
            n == result.entries@.len(),
            all == entries_view(result.entries@),
            body@ == front + entry_lines(all.take(i as int)),
            dir_count == dirs(all.take(i as int)),
            dir_count <= i,
            file_count == i - dir_count,
        decreases n - i,
    {
        proof {
            assert(all.take(i + 1).drop_last() =~= all.take(i as int));
            assert(all.take(i + 1).last() == result.entries@[i as int]@);
        }
        push_entry(&mut body, &result.entries[i]);
        if result.entries[i].is_dir {
            dir_count += 1;
        } else {
            file_count += 1;
        }
        i += 1;
        assert(body@ =~= front + entry_lines(all.take(i as int)));
    }
    assert(all.take(n as int) =~= all);
    if result.truncated {
        body.append("\n(已截断：最多显示 100 条，每个目录最多展开若干条子项)\n");
    }
    body.append("\n");
    push_dec(&mut body, file_count as u64);
    body.append(" 个文件，");
    push_dec(&mut body, dir_count as u64);
    body.append(" 个目录");
    assert(body@ =~= listing(display_root@, all, result.truncated));
    body
}

// The tool

/// What is said where a path leads nowhere.
pub open spec fn bad_path_text(err: PathError) -> Seq<char> {
    match err {
        PathError::Empty => "path 不能为空。"@,
        PathError::NotUtf8 => "路径包含无法用合法 UTF-8 表示的字节。"@,
    }
}

/// What is said where a path leads nowhere.
pub fn path_error_to_tool_error(err: &PathError) -> (r: ToolError)
    ensures
        r matches ToolError::Failed(text) && text@ == cleaned(bad_path_text(*err)),
{
    match err {
        PathError::Empty => error("path 不能为空。"),
        PathError::NotUtf8 => error("路径包含无法用合法 UTF-8 表示的字节。"),
    }
}

/// Whether a path leads out of the workspace.
pub open spec fn is_outside(workspace: &Workspace, raw: Seq<char>) -> bool {
    raw.len() > 0 && !is_inside(
        normal(led(workspace.home(), raw)),
        workspace.home(),
        workspace.naming(),
    )
}

/// To look at something outside the workspace takes as much agreement as to write.
pub fn approval_for(workspace: &Workspace, raw: &str) -> (r: ApprovalDecision)
    ensures
        r.tier == if is_outside(workspace, raw@) {
            Tier::Write
        } else {
            Tier::Read
        },
        !r.override_mode,
        r.reason is None,
{
    match workspace.resolve(raw) {
        Ok(resolved) => if resolved.outside_root {
            ApprovalDecision::tier(Tier::Write)
        } else {
            ApprovalDecision::tier(Tier::Read)
        },
        Err(_) => ApprovalDecision::tier(Tier::Read),
    }
}

/// What a listing needs somebody's agreement for.
pub fn ls_approval(workspace: &Workspace, args: &Json) -> (r: ApprovalDecision)
    ensures
        r.tier == if is_outside(workspace, path_arg(args@)) {
            Tier::Write
        } else {
            Tier::Read
        },
        !r.override_mode,
        r.reason is None,
{
    let raw = raw_path(args);
    approval_for(workspace, raw.as_str())
}

/// Listings may run beside others.
pub fn ls_concurrency() -> (r: Concurrency)
    ensures
        r == Concurrency::Shared,
{
    Concurrency::Shared
}

/// What is to be listed.
#[derive(Debug)]
pub struct LsPlan {
    pub path: Vec<Part>,
    /// The directory for people.
    pub display_path: String,
    pub options: WalkOptions,
}

/// Reads the arguments.
pub fn plan_ls(workspace: &Workspace, args: &Json, home: Option<&str>) -> (r: Result<LsPlan, ToolError>)
    ensures
        ({
            let raw = path_arg(args@);
            let path = normal(led(workspace.home(), raw));
            match r {
                Ok(p) => {
                    &&& raw.len() > 0
                    &&& parts_view(p.path@) == path
                    &&& p.display_path@ == displayed(
                        workspace.home(),
                        workspace.naming(),
                        path,
                        path_text(path),
                        opt_view(home),
                    )
                    &&& p.options == (WalkOptions {
                        max_depth: LS_MAX_DEPTH,
                        per_dir_limit: LS_MAX_ENTRIES,
                        max_entries: LS_MAX_ENTRIES,
                        respect_gitignore: flag_of(member(args@, "all"@)) != Some(true),
                    })
                },
                Err(e) => {
                    &&& raw.len() == 0
                    &&& e matches ToolError::Failed(text) && text@ == cleaned(
                        bad_path_text(PathError::Empty),
                    )
                },
            }
        }),
{
    let raw = raw_path(args);
    let all = match flag_at(args, "all") {
        Some(b) => b,
        None => false,
    };
    match workspace.resolve(raw.as_str()) {
        Ok(resolved) => {
            let text = to_text(&resolved.path);
            let display_path = workspace.display(&resolved.path, text.as_str(), home);
            Ok(
                LsPlan {
                    path: resolved.path,
                    display_path,
                    options: WalkOptions {
                        max_depth: LS_MAX_DEPTH,
                        per_dir_limit: LS_MAX_ENTRIES,
                        max_entries: LS_MAX_ENTRIES,
                        respect_gitignore: !all,
                    },
                },
            )
        },
        Err(e) => Err(path_error_to_tool_error(&e)),
    }
}

/// What is found where a path leads.
#[derive(Debug, Clone, PartialEq, Eq)]
pub enum Place {
    Directory,
    /// Something else.
    File,
    /// Nothing that can be looked at, and why.
    Unreachable(String),
}

/// What is said where nothing can be looked at.
pub open spec fn unreachable_text(display: Seq<char>, why: Seq<char>) -> Seq<char> {
    "无法访问 '"@ + display + "': "@ + why
}

/// Says that nothing can be looked at.
pub fn unreachable_place(display: &str, why: &str) -> (r: ToolError)
    ensures
        r matches ToolError::Failed(text) && text@ == cleaned(unreachable_text(display@, why@)),
{
    let mut text = "无法访问 '".to_owned();
    text.append(display);
    text.append("': ");
    text.append(why);
    error(text.as_str())
}

/// Refuses to list what is no directory.
pub fn check_place(display: &str, place: &Place) -> (r: Result<(), ToolError>)
    ensures
        match r {
            Ok(()) => *place is Directory,
            Err(e) => match *place {
                Place::Directory => false,
                Place::File => e matches ToolError::Failed(text) && text@ == cleaned(
                    "'"@ + display@ + "' 不是目录。"@,
                ),
                Place::Unreachable(why) => e matches ToolError::Failed(text) && text@ == cleaned(
                    unreachable_text(display@, why@),
                ),
            },
        },
{
    match place {
        Place::Directory => Ok(()),
        Place::File => {
            let mut text = "'".to_owned();
            text.append(display);
            text.append("' 不是目录。");
            Err(error(text.as_str()))
        },
        Place::Unreachable(why) => Err(unreachable_place(display, why.as_str())),
    }
}

/// What is told of a directory.
pub fn report_listing(display: &str, result: &WalkResult) -> (r: ToolOutput)
    ensures
        r.text@ == cleaned(listing(display@, entries_view(result.entries@), result.truncated)),
        r.title@ == "目录 "@ + display@,
        !r.useless,
{
    let mut title = "目录 ".to_owned();
    title.append(display);
    finish(render(display, result), title)
}

// Laws

/// What a walk comes to: entries that come after its end change nothing.
pub open spec fn walked(o: WalkOptions, offers: Seq<EntryView>) -> (bool, WalkView)
    decreases offers.len(),
{
    if offers.len() == 0 {
        (true, WalkView { entries: Seq::empty(), skipped: Seq::empty(), truncated: false })
    } else {
        let (goes_on, w) = walked(o, offers.drop_last());
        if goes_on {
            offered(w, o, offers.last())
        } else {
            (false, w)
        }
    }
}

/// The entries that have a name.
pub open spec fn named(l: Seq<EntryView>) -> Seq<EntryView>
    decreases l.len(),
{
    if l.len() == 0 {
        l
    } else if l.last().relative.len() == 0 {
        named(l.drop_last())
    } else {
        named(l.drop_last()).push(l.last())
    }
}

/// However a walk goes, it has no more entries than allowed, in all and in each directory.
pub proof fn lemma_walk_is_bounded(o: WalkOptions, offers: Seq<EntryView>, parent: Seq<Seq<char>>)
    ensures
        walked(o, offers).1.entries.len() <= o.max_entries,
        count_in(walked(o, offers).1.entries, parent) <= o.per_dir_limit,
    decreases offers.len(),
{
    if offers.len() > 0 {
        lemma_walk_is_bounded(o, offers.drop_last(), parent);
        let (goes_on, w) = walked(o, offers.drop_last());
        assert(w.entries.push(offers.last()).drop_last() =~= w.entries);
    }
}

/// A walk that does not say that it left something out has every entry.
pub proof fn lemma_walk_leaves_nothing_out(o: WalkOptions, offers: Seq<EntryView>)
    requires
        !walked(o, offers).1.truncated,
    ensures
        walked(o, offers).1.entries == named(offers),
        walked(o, offers).1.skipped.len() == 0,
        walked(o, offers).0,
    decreases offers.len(),
{
    if offers.len() > 0 {
        lemma_walk_leaves_nothing_out(o, offers.drop_last());
    }
}

/// Where nothing of a directory was shown for want of room, nothing in it is shown later.
pub proof fn lemma_skipped_stays_out(w: WalkView, o: WalkOptions, e: EntryView)
    requires
        is_skipped(w.skipped, e.relative),
    ensures
        offered(w, o, e).1.entries == w.entries,
{
}

} // verus!
