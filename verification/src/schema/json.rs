//! JSON values.

use vstd::prelude::*;

use crate::strings::str_eq;

verus! {

broadcast use vstd::seq::group_seq_axioms;

/// How a number was written.
#[derive(Debug, Clone, Copy, PartialEq, Eq, Structural)]
pub enum NumberKind {
    /// A whole number that is not negative.
    Unsigned(u64),
    /// A negative whole number.
    Negative(i64),
    /// A number with a fraction or an exponent.
    Float,
}

/// A number.
#[derive(Debug, Clone)]
pub struct Number {
    pub kind: NumberKind,
    /// The value as an IEEE 754 double, in its bits. It is finite.
    pub bits: u64,
    /// That double in decimal.
    pub text: String,
}

/// A JSON value.
#[derive(Debug)]
pub enum Json {
    Null,
    Flag(bool),
    Number(Number),
    Text(String),
    List(Vec<Json>),
    Object(Vec<Member>),
}

/// A member of an object.
#[derive(Debug)]
pub struct Member {
    pub key: String,
    pub value: Json,
}

/// What a number is.
#[verifier::ext_equal]
pub struct NumberView {
    pub kind: NumberKind,
    pub bits: u64,
    pub text: Seq<char>,
}

/// What a value is.
#[verifier::ext_equal]
pub enum JsonView {
    Null,
    Flag(bool),
    Number(NumberView),
    Text(Seq<char>),
    List(Seq<JsonView>),
    Object(Seq<MemberView>),
}

/// What a member is.
#[verifier::ext_equal]
pub struct MemberView {
    pub key: Seq<char>,
    pub value: JsonView,
}

impl View for Number {
    type V = NumberView;

    open spec fn view(&self) -> NumberView {
        NumberView { kind: self.kind, bits: self.bits, text: self.text@ }
    }
}

/// What a value is.
pub open spec fn json_view(v: Json) -> JsonView
    decreases v,
{
    match v {
        Json::Null => JsonView::Null,
        Json::Flag(b) => JsonView::Flag(b),
        Json::Number(n) => JsonView::Number(n@),
        Json::Text(s) => JsonView::Text(s@),
        Json::List(l) => JsonView::List(
            Seq::new(
                l@.len(),
                |i: int|
                    if 0 <= i < l@.len() {
                        json_view(l@[i])
                    } else {
                        JsonView::Null
                    },
            ),
        ),
        Json::Object(m) => JsonView::Object(
            Seq::new(
                m@.len(),
                |i: int|
                    if 0 <= i < m@.len() {
                        MemberView { key: m@[i].key@, value: json_view(m@[i].value) }
                    } else {
                        MemberView { key: Seq::empty(), value: JsonView::Null }
                    },
            ),
        ),
    }
}

impl View for Json {
    type V = JsonView;

    open spec fn view(&self) -> JsonView {
        json_view(*self)
    }
}

impl View for Member {
    type V = MemberView;

    open spec fn view(&self) -> MemberView {
        MemberView { key: self.key@, value: self.value@ }
    }
}

/// Where a double stands among the doubles: the two zeros stand in the same place.
pub open spec fn order_key(bits: u64) -> int {
    if bits >= 0x8000_0000_0000_0000 {
        -(bits - 0x8000_0000_0000_0000)
    } else {
        bits as int
    }
}

/// Two to the power of `k`.
pub open spec fn two_to(k: nat) -> nat
    decreases k,
{
    if k == 0 {
        1
    } else {
        2 * two_to((k - 1) as nat)
    }
}

/// The exponent of a double, as it is stored.
pub open spec fn exponent(bits: u64) -> int {
    (bits % 0x8000_0000_0000_0000) as int / 0x10_0000_0000_0000
}

/// The fraction of a double, as it is stored.
pub open spec fn mantissa(bits: u64) -> int {
    bits as int % 0x10_0000_0000_0000
}

/// Whether a double is a number, and not an infinity.
pub open spec fn is_finite(bits: u64) -> bool {
    exponent(bits) < 2047
}

/// Whether a finite double has no fractional part: it is zero, or all bits behind the point are.
pub open spec fn is_whole(bits: u64) -> bool {
    let e = exponent(bits);
    let m = mantissa(bits);
    if e == 0 {
        m == 0
    } else if e < 1023 {
        false
    } else if e < 1075 {
        m % two_to((1075 - e) as nat) as int == 0
    } else {
        true
    }
}

/// The value of a finite double that has no fractional part and is not negative.
pub open spec fn whole_value(bits: u64) -> nat {
    let e = exponent(bits);
    let m = mantissa(bits);
    if e == 0 {
        0
    } else if e < 1075 {
        ((0x10_0000_0000_0000 + m) / two_to((1075 - e) as nat) as int) as nat
    } else {
        ((0x10_0000_0000_0000 + m) * two_to((e - 1075) as nat)) as nat
    }
}

/// The number as a count, if it is one, however it was written: it is whole and not negative. One
/// that is larger than anything can have is the largest there is.
pub open spec fn as_count(n: NumberView) -> Option<nat> {
    let value = match n.kind {
        NumberKind::Unsigned(u) => Some(u as nat),
        _ => if is_finite(n.bits) && order_key(n.bits) >= 0 && is_whole(n.bits) {
            Some(whole_value(n.bits))
        } else {
            None
        },
    };
    match value {
        Some(x) => Some(
            if x <= usize::MAX {
                x
            } else {
                usize::MAX as nat
            },
        ),
        None => None,
    }
}

/// The number as a `u64`, if it was written as one.
pub open spec fn as_unsigned(v: JsonView) -> Option<u64> {
    match v {
        JsonView::Number(n) => match n.kind {
            NumberKind::Unsigned(u) => Some(u),
            _ => None,
        },
        _ => None,
    }
}

/// Whether two numbers are the same: they were written in the same way and have the same value.
pub open spec fn same_number(a: NumberView, b: NumberView) -> bool {
    match (a.kind, b.kind) {
        (NumberKind::Unsigned(x), NumberKind::Unsigned(y)) => x == y,
        (NumberKind::Negative(x), NumberKind::Negative(y)) => x == y,
        (NumberKind::Float, NumberKind::Float) => order_key(a.bits) == order_key(b.bits),
        _ => false,
    }
}

/// Where a key stands among members, from the `i`th on: the first one that has it.
pub open spec fn find_key(m: Seq<MemberView>, key: Seq<char>, i: int) -> Option<int>
    decreases m.len() - i,
{
    if i < 0 || i >= m.len() {
        None
    } else if m[i].key == key {
        Some(i)
    } else {
        find_key(m, key, i + 1)
    }
}

pub proof fn lemma_find_key(m: Seq<MemberView>, key: Seq<char>, i: int)
    requires
        0 <= i,
    ensures
        find_key(m, key, i) matches Some(k) ==> i <= k < m.len() && m[k].key == key,
    decreases m.len() - i,
{
    if i < m.len() && m[i].key != key {
        lemma_find_key(m, key, i + 1);
    }
}

/// The value of a key among members.
pub open spec fn lookup(m: Seq<MemberView>, key: Seq<char>) -> Option<JsonView> {
    match find_key(m, key, 0) {
        Some(i) => Some(m[i].value),
        None => None,
    }
}

/// The members of an object; anything else has none.
pub open spec fn members(v: JsonView) -> Seq<MemberView> {
    match v {
        JsonView::Object(m) => m,
        _ => Seq::empty(),
    }
}

/// The value of a key of an object.
pub open spec fn member(v: JsonView, key: Seq<char>) -> Option<JsonView> {
    lookup(members(v), key)
}

/// The elements of a list; anything else has none.
pub open spec fn elements(v: JsonView) -> Seq<JsonView> {
    match v {
        JsonView::List(l) => l,
        _ => Seq::empty(),
    }
}

/// What an object holds is smaller than it.
pub proof fn lemma_member_smaller(v: JsonView, key: Seq<char>)
    ensures
        member(v, key) matches Some(x) ==> decreases_to!(v => x),
{
    lemma_find_key(members(v), key, 0);
    if let Some(i) = find_key(members(v), key, 0) {
        lemma_members_smaller(v, i);
    }
}

/// What an object holds is smaller than it.
pub proof fn lemma_members_smaller(v: JsonView, i: int)
    requires
        0 <= i < members(v).len(),
    ensures
        decreases_to!(v => members(v)[i].value),
{
    if let JsonView::Object(m) = v {
        assert(decreases_to!(v => m));
        assert(decreases_to!(m => m[i]));
        assert(decreases_to!(m[i] => m[i].value));
    }
}

/// What a list holds is smaller than it.
pub proof fn lemma_elements_smaller(v: JsonView, i: int)
    requires
        0 <= i < elements(v).len(),
    ensures
        decreases_to!(v => elements(v)[i]),
{
    if let JsonView::List(l) = v {
        assert(decreases_to!(v => l));
        assert(decreases_to!(l => l[i]));
    }
}

/// Whether two values are the same. The order of an object's members does not matter.
pub open spec fn same_json(a: JsonView, b: JsonView) -> bool
    decreases a,
{
    match (a, b) {
        (JsonView::Null, JsonView::Null) => true,
        (JsonView::Flag(x), JsonView::Flag(y)) => x == y,
        (JsonView::Number(x), JsonView::Number(y)) => same_number(x, y),
        (JsonView::Text(x), JsonView::Text(y)) => x == y,
        (JsonView::List(x), JsonView::List(y)) => {
            &&& x.len() == y.len()
            &&& forall|i: int| 0 <= i < x.len() ==> same_json(#[trigger] x[i], y[i])
        },
        (JsonView::Object(x), JsonView::Object(y)) => {
            &&& x.len() == y.len()
            &&& forall|i: int|
                0 <= i < x.len() ==> match lookup(y, (#[trigger] x[i]).key) {
                    Some(w) => same_json(x[i].value, w),
                    None => false,
                }
        },
        _ => false,
    }
}

/// Where a double stands among the doubles.
pub fn place(bits: u64) -> (r: i64)
    ensures
        r == order_key(bits),
{
    if bits >= 0x8000_0000_0000_0000 {
        -((bits - 0x8000_0000_0000_0000) as i64)
    } else {
        bits as i64
    }
}

/// Whether a double is a number, and not an infinity.
pub fn finite(bits: u64) -> (r: bool)
    ensures
        r == is_finite(bits),
{
    (bits % 0x8000_0000_0000_0000) / 0x10_0000_0000_0000 < 2047
}

proof fn lemma_two_to_grows(a: nat, b: nat)
    requires
        a <= b,
    ensures
        1 <= two_to(a) <= two_to(b),
    decreases b,
{
    if a < b {
        lemma_two_to_grows(a, (b - 1) as nat);
    } else if a > 0 {
        lemma_two_to_grows((a - 1) as nat, (b - 1) as nat);
    }
}

/// Two to the power of `k`.
fn power_of_two(k: u64) -> (r: u64)
    requires
        k <= 52,
    ensures
        r == two_to(k as nat),
        1 <= r <= 0x10_0000_0000_0000,
{
    assert(two_to(52) == 0x10_0000_0000_0000) by {
        reveal_with_fuel(two_to, 53);
    }
    let mut power: u64 = 1;
    let mut i: u64 = 0;
    proof {
        lemma_two_to_grows(0, k as nat);
        lemma_two_to_grows(k as nat, 52);
    }
    while i < k
        invariant
            i <= k,
            power == two_to(i as nat),
            power <= two_to(k as nat),
            two_to(k as nat) <= 0x10_0000_0000_0000,
        decreases k - i,
    {
        proof {
            lemma_two_to_grows((i + 1) as nat, k as nat);
        }
        power = power * 2;
        i += 1;
    }
    power
}

/// Whether a finite double has no fractional part.
pub fn whole(bits: u64) -> (r: bool)
    ensures
        r == is_whole(bits),
{
    let e: u64 = (bits % 0x8000_0000_0000_0000) / 0x10_0000_0000_0000;
    let m: u64 = bits % 0x10_0000_0000_0000;
    if e == 0 {
        m == 0
    } else if e < 1023 {
        false
    } else if e < 1075 {
        m % power_of_two(1075 - e) == 0
    } else {
        true
    }
}

/// `n`, or the largest count there is where that is less.
fn clamped(n: u64) -> (r: usize)
    ensures
        r == if n <= usize::MAX {
            n as nat
        } else {
            usize::MAX as nat
        },
{
    if n <= usize::MAX as u64 {
        n as usize
    } else {
        usize::MAX
    }
}

/// The value of a finite double that has no fractional part and is not negative, or the largest
/// count there is where that is less.
fn whole_count(bits: u64) -> (r: usize)
    requires
        is_finite(bits),
        is_whole(bits),
    ensures
        r == if whole_value(bits) <= usize::MAX {
            whole_value(bits)
        } else {
            usize::MAX as nat
        },
{
    let e: u64 = (bits % 0x8000_0000_0000_0000) / 0x10_0000_0000_0000;
    let m: u64 = bits % 0x10_0000_0000_0000;
    if e == 0 {
        return 0;
    }
    let full: u64 = 0x10_0000_0000_0000 + m;
    if e < 1075 {
        return clamped(full / power_of_two(1075 - e));
    }
    let k: u64 = e - 1075;
    let mut n: u64 = full;
    let mut i: u64 = 0;
    proof {
        assert(two_to(0) == 1);
        assert(full * two_to(0) == full) by (nonlinear_arith)
            requires
                two_to(0) == 1,
        ;
    }
    while i < k
        invariant
            i <= k,
            k == e - 1075,
            e == exponent(bits),
            1075 <= e,
            full == 0x10_0000_0000_0000 + mantissa(bits),
            0x10_0000_0000_0000 <= full,
            n == full * two_to(i as nat),
        decreases k - i,
    {
        proof {
            lemma_two_to_grows((i + 1) as nat, k as nat);
            assert(full * two_to((i + 1) as nat) == 2 * (full * two_to(i as nat))) by (nonlinear_arith)
                requires
                    two_to((i + 1) as nat) == 2 * two_to(i as nat),
            ;
            assert(full * two_to((i + 1) as nat) <= full * two_to(k as nat)) by (nonlinear_arith)
                requires
                    two_to((i + 1) as nat) <= two_to(k as nat),
                    full >= 0,
            ;
        }
        if n > u64::MAX / 2 {
            return usize::MAX;
        }
        n = n * 2;
        i += 1;
    }
    clamped(n)
}

/// The number as a count, if it is one, however it was written.
pub fn count(n: &Number) -> (r: Option<usize>)
    ensures
        match r {
            Some(x) => as_count(n@) == Some(x as nat),
            None => as_count(n@) is None,
        },
{
    match n.kind {
        NumberKind::Unsigned(u) => Some(clamped(u)),
        _ => if finite(n.bits) && place(n.bits) >= 0 && whole(n.bits) {
            Some(whole_count(n.bits))
        } else {
            None
        },
    }
}

/// Whether two numbers are the same.
pub fn number_eq(a: &Number, b: &Number) -> (r: bool)
    ensures
        r == same_number(a@, b@),
{
    match (a.kind, b.kind) {
        (NumberKind::Unsigned(x), NumberKind::Unsigned(y)) => x == y,
        (NumberKind::Negative(x), NumberKind::Negative(y)) => x == y,
        (NumberKind::Float, NumberKind::Float) => place(a.bits) == place(b.bits),
        _ => false,
    }
}

/// What members are.
pub open spec fn members_view(m: Seq<Member>) -> Seq<MemberView> {
    Seq::new(m.len(), |i: int| m[i]@)
}

/// What elements are.
pub open spec fn list_view(l: Seq<Json>) -> Seq<JsonView> {
    Seq::new(l.len(), |i: int| l[i]@)
}

/// What a list or an object is.
pub proof fn lemma_view(v: Json)
    ensures
        v matches Json::List(l) ==> v@ == JsonView::List(list_view(l@)),
        v matches Json::Object(m) ==> v@ == JsonView::Object(members_view(m@)),
{
    if let Json::List(l) = v {
        assert(v@->List_0 =~= list_view(l@));
    }
    if let Json::Object(m) = v {
        assert(v@->Object_0 =~= members_view(m@));
    }
}

/// What a list holds is smaller than it.
pub proof fn lemma_in_list(v: Json, l: Vec<Json>, i: int)
    requires
        v == Json::List(l),
        0 <= i < l@.len(),
    ensures
        decreases_to!(v => l@[i]),
{
    assert(decreases_to!(v => v->List_0));
    assert(decreases_to!(l => l@));
    assert(decreases_to!(l@ => l@[i]));
}

/// What an object holds is smaller than it.
pub proof fn lemma_in_object(v: Json, m: Vec<Member>, i: int)
    requires
        v == Json::Object(m),
        0 <= i < m@.len(),
    ensures
        decreases_to!(v => m@[i].value),
{
    assert(decreases_to!(v => v->Object_0));
    assert(decreases_to!(m => m@));
    assert(decreases_to!(m@ => m@[i]));
    assert(decreases_to!(m@[i] => m@[i].value));
}

/// The value of a key among members.
pub fn find<'a>(m: &'a Vec<Member>, key: &str) -> (r: Option<&'a Json>)
    ensures
        match r {
            Some(x) => lookup(members_view(m@), key@) == Some(x@),
            None => lookup(members_view(m@), key@) is None,
        },
{
    let mut i: usize = 0;
    while i < m.len()
        invariant
            i <= m@.len(),
            find_key(members_view(m@), key@, 0) == find_key(members_view(m@), key@, i as int),
        decreases m@.len() - i,
    {
        if str_eq(&m[i].key, key) {
            return Some(&m[i].value);
        }
        i += 1;
    }
    None
}

impl Json {
    /// The value of a key of an object.
    pub fn get(&self, key: &str) -> (r: Option<&Json>)
        ensures
            match r {
                Some(x) => member(self@, key@) == Some(x@),
                None => member(self@, key@) is None,
            },
    {
        proof {
            lemma_view(*self);
        }
        match self {
            Json::Object(m) => find(m, key),
            _ => None,
        }
    }

    /// A copy.
    pub fn duplicate(&self) -> (r: Json)
        ensures
            r@ == self@,
        decreases self,
    {
        proof {
            lemma_view(*self);
        }
        match self {
            Json::Null => Json::Null,
            Json::Flag(b) => Json::Flag(*b),
            Json::Number(n) => Json::Number(
                Number { kind: n.kind, bits: n.bits, text: n.text.clone() },
            ),
            Json::Text(s) => Json::Text(s.clone()),
            Json::List(l) => {
                let mut out: Vec<Json> = Vec::new();
                let n: usize = l.len();
                let mut i: usize = 0;
                while i < n
                    invariant
                        i <= n,
                        n == l@.len(),
                        self == Json::List(*l),
                        list_view(out@) == list_view(l@).take(i as int),
                    decreases n - i,
                {
                    let ghost before = out@;
                    proof {
                        lemma_in_list(*self, *l, i as int);
                    }
                    out.push(l[i].duplicate());
                    i += 1;
                    assert(list_view(out@) =~= list_view(before).push(l@[i - 1]@));
                    assert(list_view(l@).take(i as int) =~= list_view(l@).take(i - 1).push(
                        l@[i - 1]@,
                    ));
                }
                let r = Json::List(out);
                proof {
                    lemma_view(r);
                    assert(list_view(l@).take(n as int) =~= list_view(l@));
                }
                r
            },
            Json::Object(m) => {
                let mut out: Vec<Member> = Vec::new();
                let n: usize = m.len();
                let mut i: usize = 0;
                while i < n
                    invariant
                        i <= n,
                        n == m@.len(),
                        self == Json::Object(*m),
                        members_view(out@) == members_view(m@).take(i as int),
                    decreases n - i,
                {
                    let ghost before = out@;
                    proof {
                        lemma_in_object(*self, *m, i as int);
                    }
                    out.push(Member { key: m[i].key.clone(), value: m[i].value.duplicate() });
                    i += 1;
                    assert(members_view(out@) =~= members_view(before).push(m@[i - 1]@));
                    assert(members_view(m@).take(i as int) =~= members_view(m@).take(i - 1).push(
                        m@[i - 1]@,
                    ));
                }
                let r = Json::Object(out);
                proof {
                    lemma_view(r);
                    assert(members_view(m@).take(n as int) =~= members_view(m@));
                }
                r
            },
        }
    }

    /// Whether two values are the same.
    pub fn same(&self, other: &Json) -> (r: bool)
        ensures
            r == same_json(self@, other@),
        decreases self,
    {
        proof {
            lemma_view(*self);
            lemma_view(*other);
        }
        match (self, other) {
            (Json::Null, Json::Null) => true,
            (Json::Flag(x), Json::Flag(y)) => *x == *y,
            (Json::Number(x), Json::Number(y)) => number_eq(x, y),
            (Json::Text(x), Json::Text(y)) => str_eq(x, y),
            (Json::List(x), Json::List(y)) => {
                if x.len() != y.len() {
                    return false;
                }
                let mut i: usize = 0;
                while i < x.len()
                    invariant
                        i <= x@.len(),
                        x@.len() == y@.len(),
                        self == Json::List(*x),
                        other == Json::List(*y),
                        self@ == JsonView::List(list_view(x@)),
                        other@ == JsonView::List(list_view(y@)),
                        forall|j: int|
                            0 <= j < i ==> same_json(
                                #[trigger] list_view(x@)[j],
                                list_view(y@)[j],
                            ),
                    decreases x@.len() - i,
                {
                    if !x[i].same(&y[i]) {
                        assert(!same_json(list_view(x@)[i as int], list_view(y@)[i as int]));
                        return false;
                    }
                    i += 1;
                }
                true
            },
            (Json::Object(x), Json::Object(y)) => {
                if x.len() != y.len() {
                    return false;
                }
                let mut i: usize = 0;
                while i < x.len()
                    invariant
                        i <= x@.len(),
                        x@.len() == y@.len(),
                        self == Json::Object(*x),
                        other == Json::Object(*y),
                        self@ == JsonView::Object(members_view(x@)),
                        other@ == JsonView::Object(members_view(y@)),
                        forall|j: int|
                            0 <= j < i ==> match lookup(
                                members_view(y@),
                                (#[trigger] members_view(x@)[j]).key,
                            ) {
                                Some(w) => same_json(members_view(x@)[j].value, w),
                                None => false,
                            },
                    decreases x@.len() - i,
                {
                    assert(members_view(x@)[i as int] == x@[i as int]@);
                    match find(y, &x[i].key) {
                        Some(w) => {
                            if !x[i].value.same(w) {
                                return false;
                            }
                        },
                        None => {
                            return false;
                        },
                    }
                    i += 1;
                }
                true
            },
            _ => false,
        }
    }
}

} // verus!
