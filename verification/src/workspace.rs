//! Where a tool's paths lead: always by their text, never by what is on disk.

use vstd::prelude::*;

use crate::strings::{
    chars_eq, chars_of, join_texts, joined, opt_view, runs, split_chars, split_on, str_eq, string_of, texts,
};
use crate::text::path::{same_char, same_path, shorten_path, shortened, lower_of, PathCase};

verus! {

broadcast use vstd::seq::group_seq_axioms;

/// A step of a path.
#[derive(Debug, Clone, PartialEq, Eq)]
pub enum Part {
    /// A drive or a share.
    Prefix(String),
    /// The root of a drive, or of all.
    Root,
    /// The directory that the path is in, `.`.
    Here,
    /// The directory above, `..`.
    Up,
    /// A name.
    Name(String),
}

/// What a step is.
#[verifier::ext_equal]
pub enum PartView {
    Prefix(Seq<char>),
    Root,
    Here,
    Up,
    Name(Seq<char>),
}

impl View for Part {
    type V = PartView;

    open spec fn view(&self) -> PartView {
        match *self {
            Part::Prefix(s) => PartView::Prefix(s@),
            Part::Root => PartView::Root,
            Part::Here => PartView::Here,
            Part::Up => PartView::Up,
            Part::Name(s) => PartView::Name(s@),
        }
    }
}

/// What steps are.
pub open spec fn parts_view(parts: Seq<Part>) -> Seq<PartView> {
    Seq::new(parts.len(), |i: int| parts[i]@)
}

/// A copy of a step.
fn copy_part(p: &Part) -> (r: Part)
    ensures
        r@ == p@,
{
    match p {
        Part::Prefix(s) => Part::Prefix(s.clone()),
        Part::Root => Part::Root,
        Part::Here => Part::Here,
        Part::Up => Part::Up,
        Part::Name(s) => Part::Name(s.clone()),
    }
}

/// The way so far with one step more. A `.` leads nowhere, and a `..` takes back the name before
/// it; above a root there is nothing, and a `..` at the start of a relative path stays.
pub open spec fn step(way: Seq<PartView>, p: PartView) -> Seq<PartView> {
    match p {
        PartView::Here => way,
        PartView::Up => if way.len() == 0 {
            way.push(p)
        } else {
            match way.last() {
                PartView::Name(_) => way.drop_last(),
                PartView::Up => way.push(p),
                _ => way,
            }
        },
        _ => way.push(p),
    }
}

/// A path without `.` and, as far as can be, without `..`.
pub open spec fn normal(parts: Seq<PartView>) -> Seq<PartView>
    decreases parts.len(),
{
    if parts.len() == 0 {
        parts
    } else {
        step(normal(parts.drop_last()), parts.last())
    }
}

/// Takes out `.` and `..` as far as can be.
pub fn normalize_lexically(parts: &Vec<Part>) -> (r: Vec<Part>)
    ensures
        parts_view(r@) == normal(parts_view(parts@)),
{
    let mut way: Vec<Part> = Vec::new();
    let ghost all = parts_view(parts@);
    let n: usize = parts.len();
    let mut i: usize = 0;
    assert(all.take(0) =~= Seq::<PartView>::empty());
    assert(parts_view(way@) =~= Seq::<PartView>::empty());
    while i < n
        invariant
            i <= n,
            n == parts@.len(),
            all == parts_view(parts@),
            parts_view(way@) == normal(all.take(i as int)),
        decreases n - i,
    {
        let ghost before = parts_view(way@);
        proof {
            assert(all.take(i + 1).drop_last() =~= all.take(i as int));
            assert(all.take(i + 1).last() == parts@[i as int]@);
        }
        match &parts[i] {
            Part::Here => {},
            Part::Up => {
                let m: usize = way.len();
                if m == 0 {
                    way.push(Part::Up);
                    assert(parts_view(way@) =~= before.push(PartView::Up));
                } else {
                    assert(before.last() == way@[m - 1]@);
                    match &way[m - 1] {
                        Part::Name(_) => {
                            let _ = way.pop();
                            assert(parts_view(way@) =~= before.drop_last());
                        },
                        Part::Up => {
                            way.push(Part::Up);
                            assert(parts_view(way@) =~= before.push(PartView::Up));
                        },
                        _ => {},
                    }
                }
            },
            other => {
                way.push(copy_part(other));
                assert(parts_view(way@) =~= before.push(parts@[i as int]@));
            },
        }
        i += 1;
    }
    assert(all.take(n as int) =~= all);
    way
}

/// The text of a step.
pub open spec fn part_text(p: PartView) -> Seq<char> {
    match p {
        PartView::Prefix(s) => s,
        PartView::Root => "/"@,
        PartView::Here => "."@,
        PartView::Up => ".."@,
        PartView::Name(s) => s,
    }
}

/// Whether two steps are the same.
pub open spec fn same_part(a: PartView, b: PartView, case: PathCase) -> bool {
    match case {
        PathCase::Sensitive => a == b,
        PathCase::Insensitive => same_path(part_text(a), part_text(b), case),
    }
}

/// Whether a path is in a directory or is that directory.
pub open spec fn is_inside(path: Seq<PartView>, root: Seq<PartView>, case: PathCase) -> bool {
    &&& root.len() <= path.len()
    &&& forall|i: int| 0 <= i < root.len() ==> same_part(#[trigger] root[i], path[i], case)
}

/// The text of a step.
fn text_of(p: &Part) -> (r: String)
    ensures
        r@ == part_text(p@),
{
    match p {
        Part::Prefix(s) => s.clone(),
        Part::Root => "/".to_owned(),
        Part::Here => ".".to_owned(),
        Part::Up => "..".to_owned(),
        Part::Name(s) => s.clone(),
    }
}

/// Whether two texts are the same but for the case of their ASCII letters.
fn same_text(a: &str, b: &str) -> (r: bool)
    ensures
        r == same_path(a@, b@, PathCase::Insensitive),
{
    let x = chars_of(a);
    let y = chars_of(b);
    if x.len() != y.len() {
        return false;
    }
    let mut i: usize = 0;
    while i < x.len()
        invariant
            i <= x@.len(),
            x@.len() == y@.len(),
            x@ == a@,
            y@ == b@,
            forall|j: int|
                0 <= j < i ==> same_char(#[trigger] x@[j], y@[j], PathCase::Insensitive),
        decreases x@.len() - i,
    {
        if lower_of(x[i]) != lower_of(y[i]) {
            assert(!same_char(x@[i as int], y@[i as int], PathCase::Insensitive));
            return false;
        }
        i += 1;
    }
    true
}

/// Whether two steps are the same.
fn component_eq(a: &Part, b: &Part, case: PathCase) -> (r: bool)
    ensures
        r == same_part(a@, b@, case),
{
    match case {
        PathCase::Sensitive => match (a, b) {
            (Part::Prefix(x), Part::Prefix(y)) => str_eq(x.as_str(), y.as_str()),
            (Part::Root, Part::Root) => true,
            (Part::Here, Part::Here) => true,
            (Part::Up, Part::Up) => true,
            (Part::Name(x), Part::Name(y)) => str_eq(x.as_str(), y.as_str()),
            _ => false,
        },
        PathCase::Insensitive => {
            let x = text_of(a);
            let y = text_of(b);
            same_text(x.as_str(), y.as_str())
        },
    }
}

/// Whether a path is in a directory or is that directory.
fn contains_path(path: &Vec<Part>, root: &Vec<Part>, case: PathCase) -> (r: bool)
    ensures
        r == is_inside(parts_view(path@), parts_view(root@), case),
{
    if root.len() > path.len() {
        return false;
    }
    let ghost p = parts_view(path@);
    let ghost d = parts_view(root@);
    let mut i: usize = 0;
    while i < root.len()
        invariant
            i <= root@.len() <= path@.len(),
            p == parts_view(path@),
            d == parts_view(root@),
            forall|j: int| 0 <= j < i ==> same_part(#[trigger] d[j], p[j], case),
        decreases root@.len() - i,
    {
        assert(d[i as int] == root@[i as int]@ && p[i as int] == path@[i as int]@);
        if !component_eq(&root[i], &path[i], case) {
            assert(!same_part(d[i as int], p[i as int], case));
            return false;
        }
        i += 1;
    }
    true
}

// Paths as text, with a slash between steps

/// The step that a piece of a path is, if it is one: an empty piece is none, and a `.` is one only
/// at the start.
pub open spec fn piece_part(piece: Seq<char>, first: bool) -> Seq<PartView> {
    if piece.len() == 0 {
        Seq::empty()
    } else if piece == "."@ {
        if first {
            seq![PartView::Here]
        } else {
            Seq::empty()
        }
    } else if piece == ".."@ {
        seq![PartView::Up]
    } else {
        seq![PartView::Name(piece)]
    }
}

/// The steps that the first `n` pieces are.
pub open spec fn piece_parts(pieces: Seq<Seq<char>>, n: nat) -> Seq<PartView>
    decreases n,
{
    if 0 < n <= pieces.len() {
        piece_parts(pieces, (n - 1) as nat) + piece_part(pieces[n - 1], n == 1)
    } else {
        Seq::empty()
    }
}

/// Whether a path starts at the root.
pub open spec fn is_absolute(raw: Seq<char>) -> bool {
    raw.len() > 0 && raw[0] == '/'
}

/// The steps of a path.
pub open spec fn parts_of(raw: Seq<char>) -> Seq<PartView> {
    let pieces = split_on(raw, '/');
    let steps = piece_parts(pieces, pieces.len());
    if is_absolute(raw) {
        seq![PartView::Root] + steps
    } else {
        steps
    }
}

/// The steps of a path.
pub fn components(raw: &str) -> (r: Vec<Part>)
    ensures
        parts_view(r@) == parts_of(raw@),
{
    let letters = chars_of(raw);
    let mut r: Vec<Part> = Vec::new();
    if letters.len() > 0 && letters[0] == '/' {
        r.push(Part::Root);
    }
    let ghost front = if is_absolute(raw@) {
        seq![PartView::Root]
    } else {
        Seq::empty()
    };
    assert(parts_view(r@) =~= front);
    let pieces = split_chars(letters.as_slice(), '/');
    let ghost all = split_on(raw@, '/');
    let dot = chars_of(".");
    let dots = chars_of("..");
    let mut i: usize = 0;
    assert(front + piece_parts(all, 0) =~= front);
    while i < pieces.len()
        invariant
            i <= pieces@.len(),
            runs(pieces@) == all,
            dot@ == "."@,
            dots@ == ".."@,
            parts_view(r@) == front + piece_parts(all, i as nat),
        decreases pieces@.len() - i,
    {
        let ghost before = parts_view(r@);
        let piece = &pieces[i];
        assert(all[i as int] == piece@);
        if piece.len() > 0 {
            if chars_eq(piece.as_slice(), dot.as_slice()) {
                if i == 0 {
                    r.push(Part::Here);
                    assert(parts_view(r@) =~= before.push(PartView::Here));
                }
            } else if chars_eq(piece.as_slice(), dots.as_slice()) {
                r.push(Part::Up);
                assert(parts_view(r@) =~= before.push(PartView::Up));
            } else {
                r.push(Part::Name(string_of(piece.as_slice())));
                assert(parts_view(r@) =~= before.push(PartView::Name(piece@)));
            }
        }
        i += 1;
        assert(parts_view(r@) =~= front + piece_parts(all, i as nat));
    }
    if letters.len() == 0 {
        assert(!is_absolute(raw@));
    }
    assert(front + piece_parts(all, all.len()) =~= parts_of(raw@));
    r
}

/// The texts of steps.
pub open spec fn part_texts(parts: Seq<PartView>) -> Seq<Seq<char>> {
    Seq::new(parts.len(), |i: int| part_text(parts[i]))
}

/// Steps as text, with a slash between them.
pub open spec fn shown(parts: Seq<PartView>) -> Seq<char> {
    joined(part_texts(parts), "/"@)
}

/// The texts of steps.
pub fn texts_of(parts: &Vec<Part>) -> (r: Vec<String>)
    ensures
        texts(r@) == part_texts(parts_view(parts@)),
{
    let list = texts_from(parts, 0);
    assert(parts_view(parts@).skip(0) =~= parts_view(parts@));
    list
}

/// The texts of the steps from the `from`th on.
fn texts_from(parts: &Vec<Part>, from: usize) -> (list: Vec<String>)
    requires
        from <= parts@.len(),
    ensures
        texts(list@) == part_texts(parts_view(parts@).skip(from as int)),
{
    let ghost all = part_texts(parts_view(parts@).skip(from as int));
    let mut list: Vec<String> = Vec::new();
    let n: usize = parts.len();
    let mut i: usize = from;
    assert(texts(list@) =~= all.take(0));
    while i < n
        invariant
            from <= i <= n,
            n == parts@.len(),
            all == part_texts(parts_view(parts@).skip(from as int)),
            texts(list@) == all.take(i - from),
        decreases n - i,
    {
        let ghost before = texts(list@);
        list.push(text_of(&parts[i]));
        i += 1;
        assert(texts(list@) =~= before.push(all[i - from - 1]));
        assert(all.take(i - from) =~= before.push(all[i - from - 1]));
    }
    assert(all.take(n - from) =~= all);
    list
}

/// The text of the steps from the `from`th on.
fn show_from(parts: &Vec<Part>, from: usize) -> (r: String)
    requires
        from <= parts@.len(),
    ensures
        r@ == shown(parts_view(parts@).skip(from as int)),
{
    let list = texts_from(parts, from);
    join_texts(&list, "/")
}

/// A path as text.
pub open spec fn path_text(parts: Seq<PartView>) -> Seq<char> {
    if parts.len() > 0 && parts[0] == PartView::Root {
        "/"@ + shown(parts.skip(1))
    } else {
        shown(parts)
    }
}

/// A path as text.
pub fn to_text(parts: &Vec<Part>) -> (r: String)
    ensures
        r@ == path_text(parts_view(parts@)),
{
    let ghost all = parts_view(parts@);
    if parts.len() > 0 {
        assert(all[0] == parts@[0]@);
        if let Part::Root = &parts[0] {
            let mut r = "/".to_owned();
            let rest = show_from(parts, 1);
            r.append(rest.as_str());
            return r;
        }
    }
    assert(all.skip(0) =~= all);
    show_from(parts, 0)
}

// The workspace

/// Why a path leads nowhere.
#[derive(Debug, Clone, Copy, PartialEq, Eq, Structural)]
pub enum PathError {
    /// It is empty.
    Empty,
    /// It is no text.
    NotUtf8,
}

impl PathError {
    /// The error in words.
    pub fn to_string(&self) -> (r: String)
        ensures
            r@ == match *self {
                PathError::Empty => "路径不能为空"@,
                PathError::NotUtf8 => "路径包含无法转换为 UTF-8 的字节"@,
            },
    {
        match self {
            PathError::Empty => "路径不能为空".to_owned(),
            PathError::NotUtf8 => "路径包含无法转换为 UTF-8 的字节".to_owned(),
        }
    }
}

/// Where a path leads. To lead out of the workspace is no error.
#[derive(Debug, Clone, PartialEq, Eq)]
pub struct Resolved {
    pub path: Vec<Part>,
    pub outside_root: bool,
}

/// The directory that an agent works in.
#[derive(Debug, Clone)]
pub struct Workspace {
    root: Vec<Part>,
    case: PathCase,
}

/// Where a path leads from a directory, before `.` and `..` are taken out.
pub open spec fn led(root: Seq<PartView>, raw: Seq<char>) -> Seq<PartView> {
    if is_absolute(raw) {
        parts_of(raw)
    } else {
        root + parts_of(raw)
    }
}

impl Workspace {
    /// The steps to the directory.
    pub closed spec fn home(&self) -> Seq<PartView> {
        parts_view(self.root@)
    }

    /// How names are told apart.
    pub closed spec fn naming(&self) -> PathCase {
        self.case
    }

    /// The workspace in a directory.
    pub fn new(root: Vec<Part>, case: PathCase) -> (r: Self)
        ensures
            r.home() == parts_view(root@),
            r.naming() == case,
    {
        Workspace { root, case }
    }

    /// The steps to the directory.
    pub fn root(&self) -> (r: &Vec<Part>)
        ensures
            parts_view(r@) == self.home(),
    {
        &self.root
    }

    /// Where a path leads that was already joined to the directory.
    pub fn resolve_parts(&self, joined_path: &Vec<Part>) -> (r: Resolved)
        ensures
            parts_view(r.path@) == normal(parts_view(joined_path@)),
            r.outside_root == !is_inside(
                normal(parts_view(joined_path@)),
                self.home(),
                self.naming(),
            ),
    {
        let path = normalize_lexically(joined_path);
        let outside_root = !contains_path(&path, &self.root, self.case);
        Resolved { path, outside_root }
    }

    /// Where a path with slashes between its steps leads: one that does not start at the root
    /// starts in the directory.
    pub fn resolve(&self, raw: &str) -> (r: Result<Resolved, PathError>)
        ensures
            match r {
                Ok(found) => {
                    &&& raw@.len() > 0
                    &&& parts_view(found.path@) == normal(led(self.home(), raw@))
                    &&& found.outside_root == !is_inside(
                        normal(led(self.home(), raw@)),
                        self.home(),
                        self.naming(),
                    )
                },
                Err(e) => raw@.len() == 0 && e == PathError::Empty,
            },
    {
        let letters = chars_of(raw);
        if letters.len() == 0 {
            return Err(PathError::Empty);
        }
        let candidate = components(raw);
        if letters[0] == '/' {
            return Ok(self.resolve_parts(&candidate));
        }
        let mut all: Vec<Part> = Vec::new();
        let n: usize = self.root.len();
        let mut i: usize = 0;
        assert(parts_view(all@) =~= self.home().take(0));
        while i < n
            invariant
                i <= n,
                n == self.root@.len(),
                parts_view(all@) == self.home().take(i as int),
            decreases n - i,
        {
            let ghost before = parts_view(all@);
            all.push(copy_part(&self.root[i]));
            i += 1;
            assert(parts_view(all@) =~= before.push(self.home()[i - 1]));
            assert(self.home().take(i as int) =~= before.push(self.home()[i - 1]));
        }
        assert(self.home().take(n as int) =~= self.home());
        let mut rest = candidate;
        let ghost tail = parts_view(rest@);
        let ghost front = all@;
        all.append(&mut rest);
        assert(parts_view(all@) =~= parts_view(front) + tail);
        Ok(self.resolve_parts(&all))
    }

    /// A path for people: in the workspace the steps from its directory on, elsewhere the path's
    /// own text with `~` for the home directory.
    pub fn display(&self, path: &Vec<Part>, text: &str, home: Option<&str>) -> (r: String)
        ensures
            r@ == displayed(
                self.home(),
                self.naming(),
                parts_view(path@),
                text@,
                opt_view(home),
            ),
    {
        if !contains_path(path, &self.root, self.case) {
            return shorten_path(text, home, self.case);
        }
        if path.len() == self.root.len() {
            return ".".to_owned();
        }
        show_from(path, self.root.len())
    }
}

/// A path for people.
pub open spec fn displayed(
    root: Seq<PartView>,
    case: PathCase,
    path: Seq<PartView>,
    text: Seq<char>,
    home: Option<Seq<char>>,
) -> Seq<char> {
    if !is_inside(path, root, case) {
        shortened(text, home, case)
    } else if path.len() == root.len() {
        "."@
    } else {
        shown(path.skip(root.len() as int))
    }
}

/// The first of the directories from a directory up to the root that is marked, or else the
/// directory itself.
pub open spec fn first_marked(marked: Seq<bool>, i: int) -> int
    decreases marked.len() - i,
{
    if i < 0 || i >= marked.len() {
        0
    } else if marked[i] {
        i
    } else {
        first_marked(marked, i + 1)
    }
}

/// Which of the directories from the current one up to the root the workspace is: the first that
/// is marked, or else the current one.
pub fn pick_root(marked: &Vec<bool>) -> (r: usize)
    ensures
        r == first_marked(marked@, 0),
{
    let mut i: usize = 0;
    while i < marked.len()
        invariant
            i <= marked@.len(),
            first_marked(marked@, 0) == first_marked(marked@, i as int),
        decreases marked@.len() - i,
    {
        if marked[i] {
            return i;
        }
        i += 1;
    }
    0
}

// Laws

/// Whether a path has neither `.` nor a `..` behind a name.
pub open spec fn is_normal(parts: Seq<PartView>) -> bool {
    &&& forall|i: int| 0 <= i < parts.len() ==> #[trigger] parts[i] != PartView::Here
    &&& forall|i: int|
        0 < i < parts.len() && #[trigger] parts[i] == PartView::Up ==> parts[i - 1] == PartView::Up
}

/// A path that was brought into its normal form has neither `.` nor a `..` that could be taken
/// out.
pub proof fn lemma_normal_is_normal(parts: Seq<PartView>)
    ensures
        is_normal(normal(parts)),
    decreases parts.len(),
{
    if parts.len() > 0 {
        lemma_normal_is_normal(parts.drop_last());
        let way = normal(parts.drop_last());
        let r = normal(parts);
        assert forall|i: int| 0 <= i < r.len() implies #[trigger] r[i] != PartView::Here by {
            if i < way.len() {
                assert(r[i] == way[i]);
            }
        }
        assert forall|i: int|
            0 < i < r.len() && #[trigger] r[i] == PartView::Up implies r[i - 1] == PartView::Up by {
            if i < way.len() {
                assert(r[i] == way[i] && r[i - 1] == way[i - 1]);
            }
        }
    }
}

/// A path in its normal form stays as it is.
pub proof fn lemma_normal_stays(parts: Seq<PartView>)
    requires
        is_normal(parts),
    ensures
        normal(parts) == parts,
    decreases parts.len(),
{
    if parts.len() > 0 {
        let front = parts.drop_last();
        assert(is_normal(front)) by {
            assert forall|i: int| 0 <= i < front.len() implies #[trigger] front[i]
                != PartView::Here by {
                assert(parts[i] == front[i]);
            }
            assert forall|i: int|
                0 < i < front.len() && #[trigger] front[i] == PartView::Up implies front[i - 1]
                == PartView::Up by {
                assert(parts[i] == front[i] && parts[i - 1] == front[i - 1]);
            }
        }
        lemma_normal_stays(front);
        assert(parts[parts.len() - 1] != PartView::Here);
        assert(front.push(parts.last()) =~= parts);
    }
}

/// To bring a path into its normal form twice is to do it once.
pub proof fn lemma_normal_twice(parts: Seq<PartView>)
    ensures
        normal(normal(parts)) == normal(parts),
{
    lemma_normal_is_normal(parts);
    lemma_normal_stays(normal(parts));
}

/// Whether all steps are names.
pub open spec fn all_names(parts: Seq<PartView>) -> bool {
    forall|i: int| 0 <= i < parts.len() ==> (#[trigger] parts[i]) is Name
}

proof fn lemma_names_appended(root: Seq<PartView>, names: Seq<PartView>)
    requires
        is_normal(root),
        all_names(names),
    ensures
        normal(root + names) == root + names,
    decreases names.len(),
{
    if names.len() == 0 {
        assert(root + names =~= root);
        lemma_normal_stays(root);
    } else {
        assert(names[names.len() - 1] is Name);
        assert forall|i: int| 0 <= i < names.drop_last().len() implies (
        #[trigger] names.drop_last()[i]) is Name by {
            assert(names[i] is Name);
        }
        lemma_names_appended(root, names.drop_last());
        assert((root + names).drop_last() =~= root + names.drop_last());
        assert((root + names.drop_last()).push(names.last()) =~= root + names);
    }
}

/// A path of names alone leads to what it says, in the workspace.
pub proof fn lemma_names_lead_inside(root: Seq<PartView>, names: Seq<PartView>, case: PathCase)
    requires
        is_normal(root),
        all_names(names),
    ensures
        normal(root + names) == root + names,
        is_inside(normal(root + names), root, case),
{
    lemma_names_appended(root, names);
    assert forall|i: int| 0 <= i < root.len() implies same_part(
        #[trigger] root[i],
        (root + names)[i],
        case,
    ) by {}
}

/// A path from the root never leads above the root: it starts with the root, and nothing but names
/// follows.
pub proof fn lemma_absolute_stays_below_root(steps: Seq<PartView>)
    requires
        forall|i: int|
            0 <= i < steps.len() ==> (#[trigger] steps[i]) is Name || steps[i] is Up || steps[i] is Here,
    ensures
        normal(seq![PartView::Root] + steps).len() > 0,
        normal(seq![PartView::Root] + steps)[0] == PartView::Root,
        all_names(normal(seq![PartView::Root] + steps).skip(1)),
    decreases steps.len(),
{
    let whole = seq![PartView::Root] + steps;
    if steps.len() == 0 {
        assert(whole.drop_last() =~= Seq::<PartView>::empty());
        assert(whole.last() == PartView::Root);
        assert(normal(whole.drop_last()) =~= Seq::<PartView>::empty());
        assert(normal(whole) =~= seq![PartView::Root]);
    } else {
        assert(whole.drop_last() =~= seq![PartView::Root] + steps.drop_last());
        assert forall|i: int| 0 <= i < steps.drop_last().len() implies (
        #[trigger] steps.drop_last()[i]) is Name || steps.drop_last()[i] is Up
            || steps.drop_last()[i] is Here by {
            assert(steps[i] is Name || steps[i] is Up || steps[i] is Here);
        }
        lemma_absolute_stays_below_root(steps.drop_last());
        let way = normal(whole.drop_last());
        let p = steps[steps.len() - 1];
        assert(whole.last() == p);
        assert(p is Name || p is Up || p is Here);
        assert forall|i: int| 0 <= i < way.len() - 1 implies (#[trigger] way[i + 1]) is Name by {
            assert(way.skip(1)[i] == way[i + 1]);
        }
        let r = normal(whole);
        if p is Up {
            if way.len() > 1 {
                assert(way[way.len() - 2 + 1] is Name);
                assert(r =~= way.drop_last());
            } else {
                assert(way.last() == PartView::Root);
                assert(r =~= way);
            }
        }
        assert forall|i: int| 0 <= i < r.skip(1).len() implies (#[trigger] r.skip(1)[i]) is Name by {
            if i + 1 < way.len() {
                assert(r[i + 1] == way[i + 1]);
            }
        }
    }
}

} // verus!
