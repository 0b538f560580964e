//! What can be wrong with a schema, and what can be wrong with a value that a schema is held
//! against.

use vstd::prelude::*;

use crate::strings::{dec, join_texts, joined, push_dec, texts};

verus! {

broadcast use vstd::seq::group_seq_axioms;

/// Why a schema is refused.
#[derive(Debug, Clone, PartialEq, Eq)]
pub enum SchemaError {
    /// A node is neither an object nor a boolean. The pointer is empty for the root.
    NotAnObjectOrBool { pointer: String },
    /// A keyword has a value that it cannot have.
    InvalidKeyword { pointer: String, keyword: &'static str, reason: String },
    /// A `$ref` points to nothing in this schema.
    UnresolvableRef { pointer: String, reference: String },
    /// A chain of nodes that are nothing but a `$ref` is too long.
    RefDepthExceeded { reference: String },
}

/// What a [`SchemaError`] says.
#[verifier::ext_equal]
pub enum SchemaErrorView {
    NotAnObjectOrBool { pointer: Seq<char> },
    InvalidKeyword { pointer: Seq<char>, keyword: Seq<char>, reason: Seq<char> },
    UnresolvableRef { pointer: Seq<char>, reference: Seq<char> },
    RefDepthExceeded { reference: Seq<char> },
}

impl View for SchemaError {
    type V = SchemaErrorView;

    open spec fn view(&self) -> SchemaErrorView {
        match *self {
            SchemaError::NotAnObjectOrBool { pointer } => SchemaErrorView::NotAnObjectOrBool {
                pointer: pointer@,
            },
            SchemaError::InvalidKeyword { pointer, keyword, reason } => {
                SchemaErrorView::InvalidKeyword {
                    pointer: pointer@,
                    keyword: keyword@,
                    reason: reason@,
                }
            },
            SchemaError::UnresolvableRef { pointer, reference } => {
                SchemaErrorView::UnresolvableRef { pointer: pointer@, reference: reference@ }
            },
            SchemaError::RefDepthExceeded { reference } => SchemaErrorView::RefDepthExceeded {
                reference: reference@,
            },
        }
    }
}

/// A [`SchemaError`] in words.
pub open spec fn error_text(e: SchemaErrorView) -> Seq<char> {
    match e {
        SchemaErrorView::NotAnObjectOrBool { pointer } => pointer
            + " 处的 schema 既不是对象也不是布尔值"@,
        SchemaErrorView::InvalidKeyword { pointer, keyword, reason } => pointer
            + " 处的 keyword `"@ + keyword + "` 不合法："@ + reason,
        SchemaErrorView::UnresolvableRef { pointer, reference } => pointer + " 处的 $ref `"@
            + reference + "` 无法解析"@,
        SchemaErrorView::RefDepthExceeded { reference } => "$ref `"@ + reference
            + "` 的解析深度超过上限"@,
    }
}

impl SchemaError {
    /// The error in words.
    pub fn to_string(&self) -> (r: String)
        ensures
            r@ == error_text(self@),
    {
        match self {
            SchemaError::NotAnObjectOrBool { pointer } => {
                let mut r = pointer.clone();
                r.append(" 处的 schema 既不是对象也不是布尔值");
                r
            },
            SchemaError::InvalidKeyword { pointer, keyword, reason } => {
                let mut r = pointer.clone();
                r.append(" 处的 keyword `");
                r.append(keyword);
                r.append("` 不合法：");
                r.append(reason.as_str());
                r
            },
            SchemaError::UnresolvableRef { pointer, reference } => {
                let mut r = pointer.clone();
                r.append(" 处的 $ref `");
                r.append(reference.as_str());
                r.append("` 无法解析");
                r
            },
            SchemaError::RefDepthExceeded { reference } => {
                let mut r = "$ref `".to_owned();
                r.append(reference.as_str());
                r.append("` 的解析深度超过上限");
                r
            },
        }
    }
}

/// A step on the way from the root of a value to a part of it.
#[derive(Debug, Clone, PartialEq, Eq)]
pub enum PathSegment {
    /// To a member of an object.
    Key(String),
    /// To an element of a list.
    Index(usize),
}

/// What a [`PathSegment`] is.
#[verifier::ext_equal]
pub enum SegmentView {
    Key(Seq<char>),
    Index(nat),
}

impl View for PathSegment {
    type V = SegmentView;

    open spec fn view(&self) -> SegmentView {
        match *self {
            PathSegment::Key(key) => SegmentView::Key(key@),
            PathSegment::Index(index) => SegmentView::Index(index as nat),
        }
    }
}

/// A step in words.
pub open spec fn segment_text(s: SegmentView) -> Seq<char> {
    match s {
        SegmentView::Key(key) => key,
        SegmentView::Index(index) => dec(index),
    }
}

impl PathSegment {
    /// The step in words.
    pub fn to_string(&self) -> (r: String)
        ensures
            r@ == segment_text(self@),
    {
        match self {
            PathSegment::Key(key) => key.clone(),
            PathSegment::Index(index) => {
                let mut r = String::new();
                push_dec(&mut r, *index as u64);
                r
            },
        }
    }
}

/// What the steps of a path are.
pub open spec fn path_view(path: Seq<PathSegment>) -> Seq<SegmentView> {
    Seq::new(path.len(), |i: int| path[i]@)
}

/// The steps of a path in words.
pub open spec fn segment_texts(path: Seq<SegmentView>) -> Seq<Seq<char>> {
    Seq::new(path.len(), |i: int| segment_text(path[i]))
}

/// A path in words.
pub open spec fn path_text(path: Seq<SegmentView>) -> Seq<char> {
    if path.len() == 0 {
        "root"@
    } else {
        joined(segment_texts(path), "/"@)
    }
}

/// A type of JSON values.
#[derive(Debug, Clone, Copy, PartialEq, Eq, Structural)]
pub enum JsonType {
    Null,
    Boolean,
    Object,
    Array,
    /// Any number.
    Number,
    /// A number without a fractional part, however it is written.
    Integer,
    String,
}

/// The name of a type.
pub open spec fn type_text(t: JsonType) -> Seq<char> {
    match t {
        JsonType::Null => "null"@,
        JsonType::Boolean => "boolean"@,
        JsonType::Object => "object"@,
        JsonType::Array => "array"@,
        JsonType::Number => "number"@,
        JsonType::Integer => "integer"@,
        JsonType::String => "string"@,
    }
}

impl JsonType {
    /// The name of the type.
    pub fn as_str(self) -> (r: &'static str)
        ensures
            r@ == type_text(self),
    {
        match self {
            JsonType::Null => "null",
            JsonType::Boolean => "boolean",
            JsonType::Object => "object",
            JsonType::Array => "array",
            JsonType::Number => "number",
            JsonType::Integer => "integer",
            JsonType::String => "string",
        }
    }
}

/// One thing that is wrong with a value.
#[derive(Debug, Clone, PartialEq, Eq)]
pub struct ValidationIssue {
    /// The way from the root to what is wrong.
    pub path: Vec<PathSegment>,
    /// What is wrong, in words.
    pub message: String,
    /// The keyword that is not met.
    pub keyword: &'static str,
    /// The types of which one was expected, where the keyword is `type`.
    pub expected_types: Vec<JsonType>,
    /// Whether the keyword is one that asks for one of several schemas.
    pub from_union_branch: bool,
}

/// What a [`ValidationIssue`] says.
#[verifier::ext_equal]
pub struct IssueView {
    pub path: Seq<SegmentView>,
    pub message: Seq<char>,
    pub keyword: Seq<char>,
    pub expected_types: Seq<JsonType>,
    pub from_union_branch: bool,
}

impl View for ValidationIssue {
    type V = IssueView;

    open spec fn view(&self) -> IssueView {
        IssueView {
            path: path_view(self.path@),
            message: self.message@,
            keyword: self.keyword@,
            expected_types: self.expected_types@,
            from_union_branch: self.from_union_branch,
        }
    }
}

/// What issues say.
pub open spec fn issues_view(issues: Seq<ValidationIssue>) -> Seq<IssueView> {
    Seq::new(issues.len(), |i: int| issues[i]@)
}

impl ValidationIssue {
    /// The path in words: `root` for the root, else its steps with a slash between them.
    pub fn display_path(&self) -> (r: String)
        ensures
            r@ == path_text(self@.path),
    {
        if self.path.len() == 0 {
            return "root".to_owned();
        }
        let mut parts: Vec<String> = Vec::new();
        let n: usize = self.path.len();
        let mut i: usize = 0;
        while i < n
            invariant
                i <= n,
                n == self.path@.len(),
                texts(parts@) == segment_texts(self@.path).take(i as int),
            decreases n - i,
        {
            let ghost before = texts(parts@);
            parts.push(self.path[i].to_string());
            i += 1;
            assert(texts(parts@) =~= before.push(segment_text(self@.path[i - 1])));
            assert(segment_texts(self@.path).take(i as int) =~= before.push(
                segment_text(self@.path[i - 1]),
            ));
        }
        assert(segment_texts(self@.path).take(n as int) =~= segment_texts(self@.path));
        join_texts(&parts, "/")
    }
}

/// All that is wrong with a value, in the order in which it was found.
#[derive(Debug, Clone, PartialEq, Eq)]
pub struct ValidationError {
    pub issues: Vec<ValidationIssue>,
}

/// An issue in words.
pub open spec fn issue_text(issue: IssueView) -> Seq<char> {
    path_text(issue.path) + ": "@ + issue.message
}

/// Issues in words.
pub open spec fn issue_texts(issues: Seq<IssueView>) -> Seq<Seq<char>> {
    Seq::new(issues.len(), |i: int| issue_text(issues[i]))
}

/// Says what an issue is.
pub fn say_issue(issue: &ValidationIssue) -> (r: String)
    ensures
        r@ == issue_text(issue@),
{
    let mut r = issue.display_path();
    r.append(": ");
    r.append(issue.message.as_str());
    r
}

impl ValidationError {
    /// All issues in words, one on each line.
    pub fn to_string(&self) -> (r: String)
        ensures
            r@ == joined(issue_texts(issues_view(self.issues@)), "\n"@),
    {
        let mut parts: Vec<String> = Vec::new();
        let n: usize = self.issues.len();
        let ghost all = issue_texts(issues_view(self.issues@));
        let mut i: usize = 0;
        while i < n
            invariant
                i <= n,
                n == self.issues@.len(),
                all == issue_texts(issues_view(self.issues@)),
                texts(parts@) == all.take(i as int),
            decreases n - i,
        {
            let ghost before = texts(parts@);
            parts.push(say_issue(&self.issues[i]));
            i += 1;
            assert(texts(parts@) =~= before.push(all[i - 1]));
            assert(all.take(i as int) =~= before.push(all[i - 1]));
        }
        assert(all.take(n as int) =~= all);
        join_texts(&parts, "\n")
    }
}

} // verus!
