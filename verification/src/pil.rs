//! The decoded form of a compiled program: references, publics, expressions
//! and connection identities.

use vstd::prelude::*;

verus! {

/// What a reference names: one column, or an array of them at consecutive ids.
#[derive(Clone, Debug)]
pub struct PilReference {
    /// The kind tag: `cmP`, `constP` or `imP`.
    pub reference_type: String,
    pub id: usize,
    pub pol_deg: usize,
    pub is_array: bool,
    pub len: Option<usize>,
    pub element_type: Option<String>,
}

/// A value together with the fully qualified name that it goes by.
#[derive(Clone, Debug, PartialEq, Eq)]
pub struct PilReferenceWithName<T> {
    pub inner: T,
    pub name: String,
}

impl<T> PilReferenceWithName<T> {
    /// `inner` under the name `name`.
    pub fn new(inner: T, name: String) -> (r: Self)
        ensures
            r.inner == inner,
            r.name == name,
    {
        PilReferenceWithName { inner, name }
    }
}

/// A scalar read from one cell of a column.
#[derive(Clone, Debug)]
pub struct PilPublic {
    /// The kind tag: `cmP` or `imP`.
    pub pol_type: String,
    pub pol_id: usize,
    pub idx: usize,
    pub id: usize,
    pub name: String,
}

/// A node of an expression tree.
#[derive(Debug)]
pub struct Expression {
    pub op: String,
    pub deg: usize,
    pub id: Option<usize>,
    pub next: Option<bool>,
    pub value: Option<String>,
    pub values: Option<Vec<Expression>>,
    pub deps: Option<Vec<usize>>,
    pub const_: Option<i64>,
}

/// A copy constraint between source and destination expressions.
#[derive(Clone, Debug)]
pub struct PilConnectionIdentity {
    pub pols: Vec<usize>,
    pub connections: Vec<usize>,
    pub file_name: String,
    pub line: usize,
}

/// A decoded program.
#[derive(Debug)]
pub struct Pil {
    pub n_commitments: usize,
    pub n_constants: usize,
    /// The references in the order in which they were decoded.
    pub references: Vec<PilReferenceWithName<PilReference>>,
    pub publics: Vec<PilPublic>,
    pub expressions: Vec<Expression>,
    pub connection_identities: Vec<PilConnectionIdentity>,
}

/// The kinds of reference.
#[derive(Clone, Copy, Debug, PartialEq, Eq, Structural)]
pub enum ReferenceKind {
    Commit,
    Constant,
    Intermediate,
}

/// The kinds of public.
#[derive(Clone, Copy, Debug, PartialEq, Eq, Structural)]
pub enum PublicKind {
    Commit,
    Intermediate,
}

/// The operations of an expression node.
#[derive(Clone, Copy, Debug, PartialEq, Eq, Structural)]
pub enum Op {
    Add,
    Sub,
    Mul,
    Neg,
    Addc,
    Mulc,
    Cm,
    Const,
    Exp,
    Number,
    Public,
}

/// The kind that a reference's tag stands for.
pub open spec fn reference_kind_of(tag: Seq<char>) -> Option<ReferenceKind> {
    if tag == "cmP"@ {
        Some(ReferenceKind::Commit)
    } else if tag == "constP"@ {
        Some(ReferenceKind::Constant)
    } else if tag == "imP"@ {
        Some(ReferenceKind::Intermediate)
    } else {
        None
    }
}

/// The kind that a public's tag stands for.
pub open spec fn public_kind_of(tag: Seq<char>) -> Option<PublicKind> {
    if tag == "cmP"@ {
        Some(PublicKind::Commit)
    } else if tag == "imP"@ {
        Some(PublicKind::Intermediate)
    } else {
        None
    }
}

/// The operation that a node's tag stands for.
pub open spec fn op_of(tag: Seq<char>) -> Option<Op> {
    if tag == "add"@ {
        Some(Op::Add)
    } else if tag == "sub"@ {
        Some(Op::Sub)
    } else if tag == "mul"@ {
        Some(Op::Mul)
    } else if tag == "neg"@ {
        Some(Op::Neg)
    } else if tag == "addc"@ {
        Some(Op::Addc)
    } else if tag == "mulc"@ {
        Some(Op::Mulc)
    } else if tag == "cm"@ {
        Some(Op::Cm)
    } else if tag == "const"@ {
        Some(Op::Const)
    } else if tag == "exp"@ {
        Some(Op::Exp)
    } else if tag == "number"@ {
        Some(Op::Number)
    } else if tag == "public"@ {
        Some(Op::Public)
    } else {
        None
    }
}

fn tag_is(tag: &String, word: &str) -> (r: bool)
    ensures
        r == (tag@ == word@),
{
    let owned = String::from_str(word);
    *tag == owned
}

impl PilReference {
    /// The kind of this reference, if its tag is known.
    pub fn kind(&self) -> (r: Option<ReferenceKind>)
        ensures
            r == reference_kind_of(self.reference_type@),
    {
        if tag_is(&self.reference_type, "cmP") {
            Some(ReferenceKind::Commit)
        } else if tag_is(&self.reference_type, "constP") {
            Some(ReferenceKind::Constant)
        } else if tag_is(&self.reference_type, "imP") {
            Some(ReferenceKind::Intermediate)
        } else {
            None
        }
    }

    /// The number of columns that the reference names.
    pub open spec fn width(&self) -> nat {
        if self.is_array {
            match self.len {
                Some(l) => l as nat,
                None => 0,
            }
        } else {
            1
        }
    }
}

impl PilPublic {
    /// The kind of this public, if its tag is known.
    pub fn kind(&self) -> (r: Option<PublicKind>)
        ensures
            r == public_kind_of(self.pol_type@),
    {
        if tag_is(&self.pol_type, "cmP") {
            Some(PublicKind::Commit)
        } else if tag_is(&self.pol_type, "imP") {
            Some(PublicKind::Intermediate)
        } else {
            None
        }
    }
}

impl Expression {
    /// The operation of this node, if its tag is known.
    pub fn operation(&self) -> (r: Option<Op>)
        ensures
            r == op_of(self.op@),
    {
        if tag_is(&self.op, "add") {
            Some(Op::Add)
        } else if tag_is(&self.op, "sub") {
            Some(Op::Sub)
        } else if tag_is(&self.op, "mul") {
            Some(Op::Mul)
        } else if tag_is(&self.op, "neg") {
            Some(Op::Neg)
        } else if tag_is(&self.op, "addc") {
            Some(Op::Addc)
        } else if tag_is(&self.op, "mulc") {
            Some(Op::Mulc)
        } else if tag_is(&self.op, "cm") {
            Some(Op::Cm)
        } else if tag_is(&self.op, "const") {
            Some(Op::Const)
        } else if tag_is(&self.op, "exp") {
            Some(Op::Exp)
        } else if tag_is(&self.op, "number") {
            Some(Op::Number)
        } else if tag_is(&self.op, "public") {
            Some(Op::Public)
        } else {
            None
        }
    }

    /// Whether the node reads its column one row ahead.
    pub open spec fn is_next(&self) -> bool {
        self.next == Some(true)
    }

    /// Whether the node reads its column one row ahead.
    pub fn next(&self) -> (r: bool)
        ensures
            r == self.is_next(),
    {
        match self.next {
            Some(flag) => flag,
            None => false,
        }
    }
}

/// Whether `c` is one of the ten decimal digits.
pub open spec fn is_digit(c: char) -> bool {
    '0' <= c && c <= '9'
}

/// The number that a sequence of decimal digits writes.
pub open spec fn digits_value(s: Seq<char>) -> nat
    decreases s.len(),
{
    if s.len() == 0 {
        0
    } else {
        digits_value(s.drop_last()) * 10 + ((s.last() as int) - ('0' as int)) as nat
    }
}

/// The digits of a numeral: what follows its optional plus sign.
pub open spec fn numeral_digits(s: Seq<char>) -> Seq<char> {
    if s.len() > 0 && s[0] == '+' {
        s.subrange(1, s.len() as int)
    } else {
        s
    }
}

/// The value of a decimal numeral: an optional `+`, then at least one digit
/// and nothing else, writing a number that fits in 64 bits.
pub open spec fn decimal_value(s: Seq<char>) -> Option<u64> {
    let digits = numeral_digits(s);
    if digits.len() > 0 && (forall|i: int| 0 <= i < digits.len() ==> is_digit(#[trigger] digits[i]))
        && digits_value(digits) <= u64::MAX {
        Some(digits_value(digits) as u64)
    } else {
        None
    }
}

proof fn lemma_digits_value_monotonic(s: Seq<char>, k: int)
    requires
        0 <= k <= s.len(),
        forall|i: int| 0 <= i < s.len() ==> is_digit(#[trigger] s[i]),
    ensures
        digits_value(s.subrange(0, k)) <= digits_value(s),
    decreases s.len() - k,
{
    if k == s.len() {
        assert(s.subrange(0, k) =~= s);
    } else {
        lemma_digits_value_monotonic(s, k + 1);
        let longer = s.subrange(0, k + 1);
        assert(longer.drop_last() =~= s.subrange(0, k));
        assert(is_digit(s[k]));
    }
}

/// Reads a decimal numeral of 64 bits.
pub fn parse_decimal(text: &str) -> (r: Option<u64>)
    ensures
        r == decimal_value(text@),
{
    let len: usize = text.unicode_len();
    let start: usize = if len > 0 && text.get_char(0) == '+' {
        1
    } else {
        0
    };
    let ghost digits = numeral_digits(text@);
    assert(digits =~= text@.subrange(start as int, len as int));
    if start == len {
        return None;
    }
    let mut acc: u64 = 0;
    let mut i: usize = start;
    assert(digits.subrange(0, 0) =~= Seq::<char>::empty());
    while i < len
        invariant
            start <= i <= len,
            len == text@.len(),
            digits == text@.subrange(start as int, len as int),
            digits == numeral_digits(text@),
            forall|k: int| 0 <= k < i - start ==> is_digit(#[trigger] digits[k]),
            acc as nat == digits_value(digits.subrange(0, i - start)),
        decreases len - i,
    {
        let c: char = text.get_char(i);
        assert(digits[i - start] == c);
        if !(c >= '0' && c <= '9') {
            assert(!is_digit(digits[i - start]));
            return None;
        }
        let d: u64 = (c as u32 - '0' as u32) as u64;
        let ghost longer = digits.subrange(0, i - start + 1);
        assert(longer.drop_last() =~= digits.subrange(0, i - start));
        assert(longer.last() == c);
        assert(digits_value(longer) == acc * 10 + d);
        let scaled = acc.checked_mul(10);
        let next = match scaled {
            Some(m) => m.checked_add(d),
            None => None,
        };
        match next {
            Some(v) => {
                acc = v;
            },
            None => {
                proof {
                    if forall|k: int| 0 <= k < digits.len() ==> is_digit(#[trigger] digits[k]) {
                        lemma_digits_value_monotonic(digits, i - start + 1);
                        assert(digits_value(digits) > u64::MAX);
                    }
                }
                return None;
            },
        }
        i = i + 1;
    }
    assert(digits.subrange(0, i - start) =~= digits);
    Some(acc)
}

/// The place of the first dot in `s`, if it has one.
pub open spec fn first_dot(s: Seq<char>) -> Option<int> {
    if exists|k: int| 0 <= k < s.len() && s[k] == '.' {
        Some(choose|k: int| 0 <= k < s.len() && s[k] == '.' && forall|i: int| 0 <= i < k ==> s[i] != '.')
    } else {
        None
    }
}

/// The namespace and the name of a fully qualified name `namespace.name`:
/// what stands before its first dot, and what stands after it.
pub open spec fn split_name(s: Seq<char>) -> Option<(Seq<char>, Seq<char>)> {
    match first_dot(s) {
        Some(k) => Some((s.subrange(0, k), s.subrange(k + 1, s.len() as int))),
        None => None,
    }
}

/// Finds the first dot of `text`.
pub fn find_dot(text: &str) -> (r: Option<usize>)
    ensures
        match r {
            Some(k) => first_dot(text@) == Some(k as int) && k < text@.len() && text@[k as int] == '.'
                && forall|i: int| 0 <= i < k ==> text@[i] != '.',
            None => first_dot(text@) is None,
        },
{
    let len: usize = text.unicode_len();
    let mut i: usize = 0;
    while i < len
        invariant
            i <= len,
            len == text@.len(),
            forall|k: int| 0 <= k < i ==> text@[k] != '.',
        decreases len - i,
    {
        if text.get_char(i) == '.' {
            proof {
                let s = text@;
                let w = choose|k: int|
                    0 <= k < s.len() && s[k] == '.' && forall|i: int| 0 <= i < k ==> s[i] != '.';
                assert(0 <= i < s.len() && s[i as int] == '.' && forall|j: int|
                    0 <= j < i ==> s[j] != '.');
                assert(w == i) by {
                    if w < i {
                        assert(s[w] != '.');
                    } else if w > i {
                        assert(s[i as int] != '.');
                    }
                }
            }
            return Some(i);
        }
        i = i + 1;
    }
    None
}

/// Splits a fully qualified name into its namespace and its name.
pub fn split_qualified(text: &str) -> (r: Option<(String, String)>)
    ensures
        match r {
            Some((namespace, name)) => split_name(text@) == Some((namespace@, name@)),
            None => split_name(text@) is None,
        },
{
    match find_dot(text) {
        Some(k) => {
            let len: usize = text.unicode_len();
            let namespace = text.substring_char(0, k).to_owned();
            let name = text.substring_char(k + 1, len).to_owned();
            Some((namespace, name))
        },
        None => None,
    }
}

} // verus!
