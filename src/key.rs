use vstd::prelude::*;
use vstd::string::StringSliceAdditionalSpecFns;
use vstd::string::StrSliceExecFns;

verus! {

/// A key: an ordered sequence of bytes.
#[derive(Clone, Debug, PartialEq, Eq, Hash, PartialOrd, Ord)]
pub struct Key {
    bytes: Vec<u8>,
}

/// The key that follows `k` immediately in byte-wise order: `k` with a zero byte appended.
pub open spec fn successor(k: Seq<u8>) -> Seq<u8> {
    k.push(0u8)
}

/// Byte-wise lexicographic order: `a` sorts strictly before `b`.
pub open spec fn key_lt(a: Seq<u8>, b: Seq<u8>) -> bool
    decreases a.len(),
{
    if b.len() == 0 {
        false
    } else if a.len() == 0 {
        true
    } else if a[0] != b[0] {
        a[0] < b[0]
    } else {
        key_lt(a.drop_first(), b.drop_first())
    }
}

impl View for Key {
    type V = Seq<u8>;

    closed spec fn view(&self) -> Seq<u8> {
        self.bytes@
    }
}

impl Key {
    /// A key holding the given bytes.
    pub fn new(bytes: Vec<u8>) -> (r: Key)
        ensures
            r@ == bytes@,
    {
        Key { bytes }
    }

    /// A key holding the bytes of a string.
    pub fn from_str_bytes(s: &str) -> (r: Key)
        ensures
            r@ == s.spec_bytes(),
    {
        Key { bytes: s.as_bytes_vec() }
    }

    /// A copy of the key.
    pub fn copied(&self) -> (r: Key)
        ensures
            r@ == self@,
    {
        Key { bytes: self.bytes.clone() }
    }

    /// The bytes of the key.
    pub fn as_bytes(&self) -> (r: &Vec<u8>)
        ensures
            r@ == self@,
    {
        &self.bytes
    }

    /// The bytes of the key, taken out of it.
    pub fn into_bytes(self) -> (r: Vec<u8>)
        ensures
            r@ == self@,
    {
        self.bytes
    }

    /// The number of bytes in the key.
    pub fn len(&self) -> (r: usize)
        ensures
            r == self@.len(),
    {
        self.bytes.len()
    }

    /// Appends a zero byte, turning the key into its immediate successor.
    pub fn push_zero(&mut self)
        ensures
            final(self)@ == successor(old(self)@),
    {
        self.bytes.push(0u8);
    }

    /// Compares two keys byte-wise; true when `self` sorts strictly before `other`.
    pub fn less_than(&self, other: &Key) -> (r: bool)
        ensures
            r == key_lt(self@, other@),
    {
        let a = &self.bytes;
        let b = &other.bytes;
        assert(self@ == a@ && other@ == b@);
        let mut i: usize = 0;
        proof {
            assert(a@.subrange(0, a@.len() as int) == a@);
            assert(b@.subrange(0, b@.len() as int) == b@);
        }
        while i < a.len() && i < b.len()
            invariant
                self@ == a@,
                other@ == b@,
                i <= a@.len(),
                i <= b@.len(),
                a@.subrange(0, i as int) == b@.subrange(0, i as int),
                key_lt(a@, b@) == key_lt(a@.subrange(i as int, a@.len() as int), b@.subrange(i as int, b@.len() as int)),
            decreases a.len() - i,
        {
            let x = a[i];
            let y = b[i];
            proof {
                let sa = a@.subrange(i as int, a@.len() as int);
                let sb = b@.subrange(i as int, b@.len() as int);
                assert(sa.drop_first() == a@.subrange(i + 1, a@.len() as int));
                assert(sb.drop_first() == b@.subrange(i + 1, b@.len() as int));
                assert(a@.subrange(0, i + 1) == a@.subrange(0, i as int).push(x));
                assert(b@.subrange(0, i + 1) == b@.subrange(0, i as int).push(y));
                assert(sa[0] == x && sb[0] == y);
                assert(x != y ==> key_lt(sa, sb) == (x < y));
            }
            if x != y {
                return x < y;
            }
            i = i + 1;
        }
        i < b.len()
    }

    /// Whether two keys hold the same bytes.
    pub fn same_as(&self, other: &Key) -> (r: bool)
        ensures
            r == (self@ == other@),
    {
        let a = &self.bytes;
        let b = &other.bytes;
        assert(self@ == a@ && other@ == b@);
        if a.len() != b.len() {
            return false;
        }
        let mut i: usize = 0;
        while i < a.len()
            invariant
                self@ == a@,
                other@ == b@,
                a@.len() == b@.len(),
                i <= a@.len(),
                forall|j: int| 0 <= j < i ==> a@[j] == b@[j],
            decreases a.len() - i,
        {
            if a[i] != b[i] {
                proof {
                    assert(a@[i as int] != b@[i as int]);
                }
                return false;
            }
            i = i + 1;
        }
        proof {
            assert(a@ =~= b@);
        }
        true
    }
}

impl From<Vec<u8>> for Key {
    fn from(bytes: Vec<u8>) -> (r: Key) {
        Key { bytes }
    }
}

impl vstd::std_specs::convert::FromSpecImpl<Vec<u8>> for Key {
    open spec fn obeys_from_spec() -> bool {
        true
    }

    closed spec fn from_spec(bytes: Vec<u8>) -> Key {
        Key { bytes }
    }
}


/// No key sorts before itself.
pub proof fn lemma_key_lt_irreflexive(a: Seq<u8>)
    ensures
        !key_lt(a, a),
    decreases a.len(),
{
    if a.len() > 0 {
        lemma_key_lt_irreflexive(a.drop_first());
    }
}

/// Byte-wise order is transitive.
pub proof fn lemma_key_lt_transitive(a: Seq<u8>, b: Seq<u8>, c: Seq<u8>)
    requires
        key_lt(a, b),
        key_lt(b, c),
    ensures
        key_lt(a, c),
    decreases a.len(),
{
    if a.len() > 0 && a[0] == b[0] && b[0] == c[0] {
        lemma_key_lt_transitive(a.drop_first(), b.drop_first(), c.drop_first());
    }
}

/// Of two distinct keys, one sorts before the other.
pub proof fn lemma_key_lt_total(a: Seq<u8>, b: Seq<u8>)
    requires
        a != b,
    ensures
        key_lt(a, b) || key_lt(b, a),
    decreases a.len(),
{
    if a.len() > 0 && b.len() > 0 && a[0] == b[0] {
        if a.drop_first() == b.drop_first() {
            assert(a =~= b.drop_first().insert(0, b[0]));
            assert(b =~= b.drop_first().insert(0, b[0]));
        }
        lemma_key_lt_total(a.drop_first(), b.drop_first());
    } else if a.len() == 0 && b.len() == 0 {
        assert(a =~= b);
    }
}

} // verus!
