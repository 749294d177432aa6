//! Index keys and their total order: integers first (by value), then
//! strings (lexicographically by character), then NULL, which sorts above
//! every other key.
use vstd::prelude::*;

verus! {

/// A key stored in a B+tree index.
#[derive(Debug)]
pub enum IndexKey {
    Int(i64),
    String(String),
    Null,
}

/// The mathematical value of an index key.
pub enum KeyValue {
    Int(i64),
    Str(Seq<char>),
    Null,
}

impl View for IndexKey {
    type V = KeyValue;

    open spec fn view(&self) -> KeyValue {
        match self {
            IndexKey::Int(n) => KeyValue::Int(*n),
            IndexKey::String(s) => KeyValue::Str(s@),
            IndexKey::Null => KeyValue::Null,
        }
    }
}

/// Strict lexicographic order on character sequences, characters compared by
/// code point.
pub open spec fn seq_lt(a: Seq<char>, b: Seq<char>) -> bool
    decreases a.len(),
{
    if a.len() == 0 {
        b.len() > 0
    } else if b.len() == 0 {
        false
    } else if a[0] != b[0] {
        a[0] < b[0]
    } else {
        seq_lt(a.drop_first(), b.drop_first())
    }
}

/// The rank of a key's kind in the order: integers, then strings, then NULL.
pub open spec fn kind_rank(k: KeyValue) -> int {
    match k {
        KeyValue::Int(_) => 0,
        KeyValue::Str(_) => 1,
        KeyValue::Null => 2,
    }
}

/// Strict order on key values.
pub open spec fn key_lt(a: KeyValue, b: KeyValue) -> bool {
    match (a, b) {
        (KeyValue::Int(x), KeyValue::Int(y)) => x < y,
        (KeyValue::Str(x), KeyValue::Str(y)) => seq_lt(x, y),
        _ => kind_rank(a) < kind_rank(b),
    }
}

pub open spec fn key_le(a: KeyValue, b: KeyValue) -> bool {
    key_lt(a, b) || a == b
}

/// `seq_lt` is irreflexive.
pub proof fn lemma_seq_lt_irreflexive(a: Seq<char>)
    ensures
        !seq_lt(a, a),
    decreases a.len(),
{
    if a.len() > 0 {
        lemma_seq_lt_irreflexive(a.drop_first());
    }
}

/// `seq_lt` is transitive.
pub proof fn lemma_seq_lt_transitive(a: Seq<char>, b: Seq<char>, c: Seq<char>)
    requires
        seq_lt(a, b),
        seq_lt(b, c),
    ensures
        seq_lt(a, c),
    decreases a.len(),
{
    if a.len() > 0 && b.len() > 0 && c.len() > 0 {
        if a[0] == b[0] && b[0] == c[0] {
            lemma_seq_lt_transitive(a.drop_first(), b.drop_first(), c.drop_first());
        }
    }
}

/// Any two distinct sequences are ordered one way or the other.
pub proof fn lemma_seq_lt_total(a: Seq<char>, b: Seq<char>)
    ensures
        seq_lt(a, b) || seq_lt(b, a) || a == b,
    decreases a.len(),
{
    if a.len() == 0 && b.len() == 0 {
        assert(a =~= b);
    } else if a.len() > 0 && b.len() > 0 {
        if a[0] == b[0] {
            lemma_seq_lt_total(a.drop_first(), b.drop_first());
            if a.drop_first() == b.drop_first() {
                assert(a.len() == b.len());
                assert(a =~= b) by {
                    assert forall|i: int| 0 <= i < a.len() implies a[i] == b[i] by {
                        if i > 0 {
                            assert(a[i] == a.drop_first()[i - 1]);
                            assert(b[i] == b.drop_first()[i - 1]);
                        }
                    }
                }
            }
        }
    }
}

/// Index keys are totally ordered: the order is irreflexive, transitive,
/// and any two keys are either equal or ordered one way or the other.
pub proof fn law_key_order_is_total(a: KeyValue, b: KeyValue, c: KeyValue)
    ensures
        !key_lt(a, a),
        key_lt(a, b) && key_lt(b, c) ==> key_lt(a, c),
        key_lt(a, b) || key_lt(b, a) || a == b,
        !(key_lt(a, b) && key_lt(b, a)),
{
    match a {
        KeyValue::Str(x) => {
            lemma_seq_lt_irreflexive(x);
        },
        _ => {},
    }
    match (a, b) {
        (KeyValue::Str(x), KeyValue::Str(y)) => {
            lemma_seq_lt_total(x, y);
            if seq_lt(x, y) && seq_lt(y, x) {
                lemma_seq_lt_transitive(x, y, x);
                lemma_seq_lt_irreflexive(x);
            }
        },
        _ => {},
    }
    if key_lt(a, b) && key_lt(b, c) {
        match (a, b, c) {
            (KeyValue::Str(x), KeyValue::Str(y), KeyValue::Str(z)) => {
                lemma_seq_lt_transitive(x, y, z);
            },
            _ => {},
        }
    }
}

/// Whether `a` sorts strictly before `b`, character by character.
pub fn str_lt(a: &String, b: &String) -> (lt: bool)
    ensures
        lt == seq_lt(a@, b@),
{
    let x = a.as_str();
    let y = b.as_str();
    let n = x.unicode_len();
    let m = y.unicode_len();
    let mut i: usize = 0;
    assert(a@.subrange(0, n as int) =~= a@);
    assert(b@.subrange(0, m as int) =~= b@);
    while i < n && i < m
        invariant
            n == x@.len(),
            m == y@.len(),
            x@ == a@,
            y@ == b@,
            i <= n,
            i <= m,
            seq_lt(a@, b@) == seq_lt(a@.subrange(i as int, n as int), b@.subrange(i as int, m as int)),
        decreases n - i,
    {
        let c = x.get_char(i);
        let d = y.get_char(i);
        proof {
            let s = a@.subrange(i as int, n as int);
            let t = b@.subrange(i as int, m as int);
            assert(s[0] == c && t[0] == d);
            assert(s.drop_first() =~= a@.subrange(i + 1, n as int));
            assert(t.drop_first() =~= b@.subrange(i + 1, m as int));
        }
        if c != d {
            return c < d;
        }
        i = i + 1;
    }
    i < m
}

/// Whether two strings hold the same characters.
pub fn str_eq(a: &String, b: &String) -> (eq: bool)
    ensures
        eq == (a@ == b@),
{
    a.eq(b)
}

impl IndexKey {
    /// Whether `self` sorts strictly before `other`.
    pub fn lt(&self, other: &IndexKey) -> (lt: bool)
        ensures
            lt == key_lt(self@, other@),
    {
        match (self, other) {
            (IndexKey::Int(x), IndexKey::Int(y)) => *x < *y,
            (IndexKey::String(x), IndexKey::String(y)) => str_lt(x, y),
            (IndexKey::Int(_), _) => !matches!(other, IndexKey::Int(_)),
            (IndexKey::String(_), IndexKey::Null) => true,
            _ => false,
        }
    }

    /// Whether the two keys are equal.
    pub fn equals(&self, other: &IndexKey) -> (eq: bool)
        ensures
            eq == (self@ == other@),
    {
        match (self, other) {
            (IndexKey::Int(x), IndexKey::Int(y)) => *x == *y,
            (IndexKey::String(x), IndexKey::String(y)) => str_eq(x, y),
            (IndexKey::Null, IndexKey::Null) => true,
            _ => false,
        }
    }

    /// A copy of the key.
    pub fn duplicate(&self) -> (copy: IndexKey)
        ensures
            copy@ == self@,
    {
        match self {
            IndexKey::Int(n) => IndexKey::Int(*n),
            IndexKey::String(s) => IndexKey::String(s.clone()),
            IndexKey::Null => IndexKey::Null,
        }
    }
}

} // verus!
